//! Options for rendering a static tree.
use crate::style::{has_glyphs, is_unicode, style_of, StyleConfig, TreeStyle};
use crate::text::{trim, trimmed};
use vstd::prelude::*;

verus! {

/// The options of the text renderer.
pub struct RenderConfig {
    /// The glyphs of the prefixes.
    pub style: StyleConfig,
    /// Whether colour was asked for; the text renderer draws plain text
    /// either way and leaves colouring to the terminal layer.
    pub colors: bool,
    /// The text that ends a node's line; a leaf's lines end with it, its
    /// trailing white space removed, and a newline.
    pub line_ending: String,
}

impl Clone for RenderConfig {
    fn clone(&self) -> (r: Self)
        ensures
            r == *self,
    {
        RenderConfig {
            style: self.style.clone(),
            colors: self.colors,
            line_ending: self.line_ending.clone(),
        }
    }
}

/// Whether `c` holds the default options: Unicode glyphs, no colour, lines
/// ended by a newline.
pub open spec fn is_default_config(c: RenderConfig) -> bool {
    &&& is_unicode(c.style)
    &&& !c.colors
    &&& c.line_ending@ == "\n"@
}

/// Whether two option sets hold the same texts and flags.
pub open spec fn same_options(a: RenderConfig, b: RenderConfig) -> bool {
    &&& a.style.branch@ == b.style.branch@
    &&& a.style.last@ == b.style.last@
    &&& a.style.vertical@ == b.style.vertical@
    &&& a.style.empty@ == b.style.empty@
    &&& a.colors == b.colors
    &&& a.line_ending@ == b.line_ending@
}

impl Default for RenderConfig {
    fn default() -> (r: Self)
        ensures
            is_default_config(r),
    {
        RenderConfig {
            style: StyleConfig::default(),
            colors: false,
            line_ending: String::from_str("\n"),
        }
    }
}

impl RenderConfig {
    /// The default options: Unicode glyphs, no colour, lines ended by "\n".
    pub fn new() -> (r: Self)
        ensures
            is_default_config(r),
    {
        Self::default()
    }

    /// The same options drawn with `style`.
    pub fn with_style(self, style: TreeStyle) -> (r: Self)
        ensures
            style_of(style, r.style),
            r.colors == self.colors,
            r.line_ending == self.line_ending,
    {
        RenderConfig { style: style.to_config(), ..self }
    }

    /// The same options drawn with the glyphs of `style`.
    pub fn with_style_config(self, style: StyleConfig) -> (r: Self)
        ensures
            r.style == style,
            r.colors == self.colors,
            r.line_ending == self.line_ending,
    {
        RenderConfig { style, ..self }
    }

    /// The same options with colour on or off.
    pub fn with_colors(self, colors: bool) -> (r: Self)
        ensures
            r.style == self.style,
            r.colors == colors,
            r.line_ending == self.line_ending,
    {
        RenderConfig { colors, ..self }
    }

    /// The same options with another text ending a node's line.
    pub fn with_line_ending(self, ending: &str) -> (r: Self)
        ensures
            r.style == self.style,
            r.colors == self.colors,
            r.line_ending@ == ending@,
    {
        RenderConfig { line_ending: String::from_str(ending), ..self }
    }
}

/// The pieces of `s` between commas, as `str::split(',')` gives them.
pub open spec fn comma_pieces(s: Seq<char>) -> Seq<Seq<char>>
    decreases s.len(),
{
    if s.len() == 0 {
        seq![Seq::empty()]
    } else {
        let rest = comma_pieces(s.drop_last());
        if s.last() == ',' {
            rest.push(Seq::empty())
        } else {
            rest.update(rest.len() - 1, rest.last().push(s.last()))
        }
    }
}

/// The pieces of `s` between commas, each trimmed.
fn split_commas(s: &str) -> (r: Vec<&str>)
    ensures
        r@.len() == comma_pieces(s@).len(),
        forall|i: int| 0 <= i < r@.len() ==> #[trigger] r@[i]@ == trimmed(comma_pieces(s@)[i]),
{
    let n = s.unicode_len();
    let mut parts: Vec<&str> = Vec::new();
    let ghost mut raw: Seq<Seq<char>> = Seq::empty();
    let mut start: usize = 0;
    let mut i: usize = 0;
    assert(s@.take(0) =~= Seq::<char>::empty());
    assert(s@.subrange(0, 0) =~= Seq::<char>::empty());
    while i < n
        invariant
            n == s@.len(),
            start <= i <= n,
            parts@.len() == raw.len(),
            forall|j: int| 0 <= j < raw.len() ==> #[trigger] parts@[j]@ == trimmed(raw[j]),
            comma_pieces(s@.take(i as int)) == raw.push(s@.subrange(start as int, i as int)),
        decreases n - i,
    {
        let c = s.get_char(i);
        proof {
            assert(s@.take(i + 1).drop_last() =~= s@.take(i as int));
            assert(s@.take(i + 1).last() == c);
        }
        if c == ',' {
            let piece = s.substring_char(start, i);
            parts.push(trim(piece));
            proof {
                raw = raw.push(s@.subrange(start as int, i as int));
                assert(s@.subrange(i + 1, i + 1) =~= Seq::<char>::empty());
            }
            start = i + 1;
        } else {
            proof {
                assert(s@.subrange(start as int, i + 1) =~= s@.subrange(start as int, i as int).push(c));
            }
        }
        i = i + 1;
    }
    let piece = s.substring_char(start, n);
    parts.push(trim(piece));
    proof {
        raw = raw.push(s@.subrange(start as int, n as int));
        assert(s@.take(n as int) =~= s@);
    }
    parts
}

/// The options that a command line asks for: the glyphs of `style`, or
/// those of `custom_style` where given (four texts separated by commas:
/// branch, last, vertical, empty, each trimmed); colour on where `color`
/// is set and `no_color` is not. A custom style without exactly four
/// pieces is an error.
pub fn build_render_config(style: TreeStyle, custom_style: Option<&str>, color: bool, no_color: bool) -> (r: Result<RenderConfig, String>)
    ensures
        match custom_style {
            Some(c) => r is Ok <==> comma_pieces(c@).len() == 4,
            None => r is Ok,
        },
        r is Ok ==> {
            let cfg = r->Ok_0;
            &&& match custom_style {
                Some(c) => has_glyphs(
                    cfg.style,
                    trimmed(comma_pieces(c@)[0]),
                    trimmed(comma_pieces(c@)[1]),
                    trimmed(comma_pieces(c@)[2]),
                    trimmed(comma_pieces(c@)[3]),
                ),
                None => style_of(style, cfg.style),
            }
            &&& cfg.colors == (color && !no_color)
            &&& cfg.line_ending@ == "\n"@
        },
{
    let config = RenderConfig::default();
    let config = match custom_style {
        Some(c) => {
            let parts = split_commas(c);
            if parts.len() != 4 {
                return Err(String::from_str("Custom style must have 4 comma-separated values: branch,last,vertical,empty"));
            }
            config.with_style_config(StyleConfig::custom(parts[0], parts[1], parts[2], parts[3]))
        },
        None => config.with_style(style),
    };
    Ok(config.with_colors(color && !no_color))
}

} // verus!

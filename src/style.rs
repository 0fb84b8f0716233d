//! Glyph sets used to draw one level of indentation.
use vstd::prelude::*;

verus! {

/// The built-in glyph sets, or a custom one.
pub enum TreeStyle {
    Unicode,
    Ascii,
    Box,
    Custom { branch: String, last: String, vertical: String, empty: String },
}

/// Four glyphs: a branch to a child, a branch to the last child, a vertical
/// continuation under a child that has later siblings, and blank indentation.
pub struct StyleConfig {
    pub branch: String,
    pub last: String,
    pub vertical: String,
    pub empty: String,
}

/// Whether `s` holds exactly the four given glyphs.
pub open spec fn has_glyphs(
    s: StyleConfig,
    branch: Seq<char>,
    last: Seq<char>,
    vertical: Seq<char>,
    empty: Seq<char>,
) -> bool {
    &&& s.branch@ == branch
    &&& s.last@ == last
    &&& s.vertical@ == vertical
    &&& s.empty@ == empty
}

/// The Unicode box-drawing glyphs.
pub open spec fn is_unicode(s: StyleConfig) -> bool {
    has_glyphs(s, " ├─"@, " └─"@, " │ "@, "   "@)
}

/// The plain ASCII glyphs.
pub open spec fn is_ascii_style(s: StyleConfig) -> bool {
    has_glyphs(s, " +-"@, " `-"@, " | "@, "   "@)
}

/// The glyphs that a `TreeStyle` stands for.
pub open spec fn style_of(t: TreeStyle, s: StyleConfig) -> bool {
    match t {
        TreeStyle::Unicode => is_unicode(s),
        TreeStyle::Box => is_unicode(s),
        TreeStyle::Ascii => is_ascii_style(s),
        TreeStyle::Custom { branch, last, vertical, empty } => has_glyphs(
            s,
            branch@,
            last@,
            vertical@,
            empty@,
        ),
    }
}

impl TreeStyle {
    /// The Unicode glyph set.
    pub fn unicode() -> (r: StyleConfig)
        ensures
            is_unicode(r),
    {
        StyleConfig {
            branch: String::from_str(" ├─"),
            last: String::from_str(" └─"),
            vertical: String::from_str(" │ "),
            empty: String::from_str("   "),
        }
    }

    /// The ASCII glyph set.
    pub fn ascii() -> (r: StyleConfig)
        ensures
            is_ascii_style(r),
    {
        StyleConfig {
            branch: String::from_str(" +-"),
            last: String::from_str(" `-"),
            vertical: String::from_str(" | "),
            empty: String::from_str("   "),
        }
    }

    /// The box-drawing glyph set, which is the Unicode one.
    pub fn box_drawing() -> (r: StyleConfig)
        ensures
            is_unicode(r),
    {
        StyleConfig {
            branch: String::from_str(" ├─"),
            last: String::from_str(" └─"),
            vertical: String::from_str(" │ "),
            empty: String::from_str("   "),
        }
    }

    /// The glyph set this style names.
    pub fn to_config(self) -> (r: StyleConfig)
        ensures
            style_of(self, r),
    {
        match self {
            TreeStyle::Unicode => TreeStyle::unicode(),
            TreeStyle::Ascii => TreeStyle::ascii(),
            TreeStyle::Box => TreeStyle::box_drawing(),
            TreeStyle::Custom { branch, last, vertical, empty } => StyleConfig {
                branch,
                last,
                vertical,
                empty,
            },
        }
    }
}

impl Default for TreeStyle {
    fn default() -> (r: Self)
        ensures
            r is Unicode,
    {
        TreeStyle::Unicode
    }
}

impl Clone for StyleConfig {
    fn clone(&self) -> (r: Self)
        ensures
            r == *self,
    {
        StyleConfig {
            branch: self.branch.clone(),
            last: self.last.clone(),
            vertical: self.vertical.clone(),
            empty: self.empty.clone(),
        }
    }
}

impl Default for StyleConfig {
    fn default() -> (r: Self)
        ensures
            is_unicode(r),
    {
        TreeStyle::unicode()
    }
}

impl StyleConfig {
    /// A glyph set made of four given strings.
    pub fn custom(branch: &str, last: &str, vertical: &str, empty: &str) -> (r: StyleConfig)
        ensures
            has_glyphs(r, branch@, last@, vertical@, empty@),
    {
        StyleConfig {
            branch: String::from_str(branch),
            last: String::from_str(last),
            vertical: String::from_str(vertical),
            empty: String::from_str(empty),
        }
    }

    /// The branch glyph towards a child: the last-child one where `is_last`.
    pub fn get_branch(&self, is_last: bool) -> (r: &str)
        ensures
            r@ == (if is_last { self.last@ } else { self.branch@ }),
    {
        if is_last {
            self.last.as_str()
        } else {
            self.branch.as_str()
        }
    }

    /// The vertical continuation glyph.
    pub fn get_vertical(&self) -> (r: &str)
        ensures
            r@ == self.vertical@,
    {
        self.vertical.as_str()
    }

    /// The blank indentation glyph.
    pub fn get_empty(&self) -> (r: &str)
        ensures
            r@ == self.empty@,
    {
        self.empty.as_str()
    }
}

} // verus!

//! The prefix strings drawn before an item, derived from its level path.
use crate::level::LevelPath;
use crate::style::{is_ascii_style, is_unicode, StyleConfig};
use vstd::prelude::*;

verus! {

/// The glyph for an ancestor level: blank under a last child, a vertical bar
/// under one that has later siblings.
pub open spec fn ancestor_glyph(is_last: bool, style: StyleConfig) -> Seq<char> {
    if is_last {
        style.empty@
    } else {
        style.vertical@
    }
}

/// The glyph for an item's own edge to its parent.
pub open spec fn own_glyph(is_last: bool, style: StyleConfig) -> Seq<char> {
    if is_last {
        style.last@
    } else {
        style.branch@
    }
}

/// Every level drawn with the ancestor rule: the prefix of a continuation line.
pub open spec fn continuation_text(path: Seq<bool>, style: StyleConfig) -> Seq<char>
    decreases path.len(),
{
    if path.len() == 0 {
        Seq::empty()
    } else {
        continuation_text(path.drop_last(), style) + ancestor_glyph(path.last(), style)
    }
}

/// The prefix of an item's first line: the ancestor rule for every level but
/// the last, which draws the item's own branch.
pub open spec fn prefix_text(path: Seq<bool>, style: StyleConfig) -> Seq<char> {
    if path.len() == 0 {
        Seq::empty()
    } else {
        continuation_text(path.drop_last(), style) + own_glyph(path.last(), style)
    }
}

/// Appends the glyph of one ancestor level to `out`.
fn push_ancestor(out: &mut String, is_last: bool, style: &StyleConfig)
    ensures
        final(out)@ == old(out)@ + ancestor_glyph(is_last, *style),
{
    if is_last {
        out.append(style.get_empty());
    } else {
        out.append(style.get_vertical());
    }
}

/// Appends the continuation prefix of the first `n` levels of `path` to `out`.
pub fn push_continuation(out: &mut String, path: &[bool], n: usize, style: &StyleConfig)
    requires
        n <= path@.len(),
    ensures
        final(out)@ == old(out)@ + continuation_text(path@.take(n as int), *style),
{
    let ghost start = out@;
    let mut i: usize = 0;
    while i < n
        invariant
            i <= n <= path@.len(),
            out@ == start + continuation_text(path@.take(i as int), *style),
        decreases n - i,
    {
        push_ancestor(out, path[i], style);
        assert(path@.take(i + 1).drop_last() =~= path@.take(i as int));
        i = i + 1;
    }
}

/// The prefix of the first line of an item at `level`.
pub fn compute_prefix(level: &LevelPath, style: &StyleConfig) -> (r: String)
    ensures
        r@ == prefix_text(level@, *style),
{
    let path = level.as_slice();
    let mut out = String::new();
    let n = path.len();
    if n > 0 {
        push_continuation(&mut out, path, n - 1, style);
        out.append(style.get_branch(path[n - 1]));
        assert(path@.take(n - 1) =~= path@.drop_last());
    }
    out
}

/// The prefix of the second and later lines of a leaf at `level`.
pub fn compute_second_line_prefix(level: &LevelPath, style: &StyleConfig) -> (r: String)
    ensures
        r@ == continuation_text(level@, *style),
{
    let path = level.as_slice();
    let mut out = String::new();
    push_continuation(&mut out, path, path.len(), style);
    assert(path@.take(path@.len() as int) =~= path@);
    out
}

/// Whether the glyphs of two styles have, kind by kind, the same lengths.
pub open spec fn same_glyph_widths(a: StyleConfig, b: StyleConfig) -> bool {
    &&& a.branch@.len() == b.branch@.len()
    &&& a.last@.len() == b.last@.len()
    &&& a.vertical@.len() == b.vertical@.len()
    &&& a.empty@.len() == b.empty@.len()
}

/// Changing the style changes the glyphs and nothing else: with glyphs of
/// the same widths, the prefixes of every path have the same length.
pub proof fn law_style_substitution(path: Seq<bool>, a: StyleConfig, b: StyleConfig)
    requires
        same_glyph_widths(a, b),
    ensures
        continuation_text(path, a).len() == continuation_text(path, b).len(),
        prefix_text(path, a).len() == prefix_text(path, b).len(),
    decreases path.len(),
{
    if path.len() > 0 {
        law_style_substitution(path.drop_last(), a, b);
    }
}

/// The Unicode and ASCII styles draw every path with prefixes of the same
/// length: three characters per level.
pub proof fn law_unicode_ascii_widths(path: Seq<bool>, u: StyleConfig, a: StyleConfig)
    requires
        is_unicode(u),
        is_ascii_style(a),
    ensures
        prefix_text(path, u).len() == prefix_text(path, a).len(),
        prefix_text(path, u).len() == 3 * path.len(),
    decreases path.len(),
{
    reveal_strlit(" ├─");
    reveal_strlit(" └─");
    reveal_strlit(" │ ");
    reveal_strlit("   ");
    reveal_strlit(" +-");
    reveal_strlit(" `-");
    reveal_strlit(" | ");
    law_style_substitution(path, u, a);
    lemma_continuation_width(path, u);
}

/// With every glyph three characters wide, a continuation prefix takes
/// three characters per level.
proof fn lemma_continuation_width(path: Seq<bool>, s: StyleConfig)
    requires
        s.branch@.len() == 3,
        s.last@.len() == 3,
        s.vertical@.len() == 3,
        s.empty@.len() == 3,
    ensures
        continuation_text(path, s).len() == 3 * path.len(),
        prefix_text(path, s).len() == 3 * path.len(),
    decreases path.len(),
{
    if path.len() > 0 {
        lemma_continuation_width(path.drop_last(), s);
    }
}

/// Whether two styles hold the same glyph texts.
pub open spec fn same_glyphs(a: StyleConfig, b: StyleConfig) -> bool {
    &&& a.branch@ == b.branch@
    &&& a.last@ == b.last@
    &&& a.vertical@ == b.vertical@
    &&& a.empty@ == b.empty@
}

/// Prefixes depend on the glyphs' texts alone.
pub proof fn lemma_prefix_same_glyphs(path: Seq<bool>, a: StyleConfig, b: StyleConfig)
    requires
        same_glyphs(a, b),
    ensures
        continuation_text(path, a) == continuation_text(path, b),
        prefix_text(path, a) == prefix_text(path, b),
    decreases path.len(),
{
    if path.len() > 0 {
        lemma_prefix_same_glyphs(path.drop_last(), a, b);
    }
}

} // verus!

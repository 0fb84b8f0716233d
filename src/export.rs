//! Exporting a static tree as HTML with collapsible nodes, and as a
//! Graphviz DOT graph.
use crate::stats::{depth_of, leaf_count_of, node_count_of};
use crate::tree::{lemma_values_of, texts, values_of, Tree, TreeValue};
use vstd::prelude::*;

verus! {

/// The opening of an HTML export: a container, its style sheet, and the
/// outer list.
pub const HTML_HEAD: &'static str = "<div class=\"tree\">\n<style>\n* { box-sizing: border-box; margin: 0; padding: 0; }\nbody { font-family: Helvetica Neue, Helvetica, Arial, sans-serif; font-size: 20px; }\n.tree ul { list-style: none; padding-left: 0.5em; margin-left: 0.3em; border-left: 3px solid #c0d1d1; margin-bottom: 1em; color: #212b2b; }\n.tree li { list-style-type: none; margin-bottom: 0.5em; margin-top: 0.5em; }\n.tree details summary { cursor: pointer; color: #4C74B9; }\n.tree details summary::-webkit-details-marker { color: #4C74B9; font-size: 18px; }\n.tree details[open] > summary::-webkit-details-marker { color: #2b4b82; }\n.tree details[open] > summary { color: #2b4b82; }\n</style>\n<ul>\n";

/// The closing of an HTML export.
pub const HTML_TAIL: &'static str = "</ul></div>";

/// What a character becomes in HTML text.
pub open spec fn html_char(c: char) -> Seq<char> {
    if c == '&' {
        "&amp;"@
    } else if c == '<' {
        "&lt;"@
    } else if c == '>' {
        "&gt;"@
    } else if c == '"' {
        "&quot;"@
    } else if c == '\'' {
        "&#x27;"@
    } else {
        seq![c]
    }
}

/// What a character becomes inside a quoted DOT string.
pub open spec fn dot_char(c: char) -> Seq<char> {
    if c == '\\' {
        "\\\\"@
    } else if c == '"' {
        "\\\""@
    } else if c == '\n' {
        "\\n"@
    } else {
        seq![c]
    }
}

/// `s` with each character replaced as `html_char` (`html` true) or
/// `dot_char` (`html` false) says.
pub open spec fn escaped(s: Seq<char>, html: bool) -> Seq<char>
    decreases s.len(),
{
    if s.len() == 0 {
        Seq::empty()
    } else {
        escaped(s.drop_last(), html) + if html {
            html_char(s.last())
        } else {
            dot_char(s.last())
        }
    }
}

/// The decimal digits of `n`.
pub open spec fn decimal(n: nat) -> Seq<char>
    decreases n,
{
    if n < 10 {
        seq![digit(n)]
    } else {
        decimal(n / 10) + seq![digit(n % 10)]
    }
}

/// The digit character for `d` below ten.
pub open spec fn digit(d: nat) -> char {
    (('0' as u32) + d) as char
}

/// `n` copies of two spaces.
pub open spec fn indent(n: nat) -> Seq<char>
    decreases n,
{
    if n == 0 {
        Seq::empty()
    } else {
        indent((n - 1) as nat) + "  "@
    }
}

/// The HTML list items of `t` at nesting `d`.
pub open spec fn html_of(t: TreeValue, d: nat) -> Seq<char>
    decreases t, 0int,
{
    let ind = indent(d);
    match t {
        TreeValue::Node(label, ch) => if ch.len() > 0 {
            ind + "<li>\n"@ + ind + "  <details>\n"@ + ind + "    <summary>"@ + escaped(label, true)
                + "</summary>\n"@ + ind + "    <ul>\n"@ + html_in(ch, d + 2, ch.len() as int) + ind
                + "    </ul>\n"@ + ind + "  </details>\n"@ + ind + "</li>\n"@
        } else {
            ind + "<li>"@ + escaped(label, true) + "</li>\n"@
        },
        TreeValue::Leaf(lines) => html_lines(lines, d, lines.len() as int),
    }
}

/// The HTML list items of the first `k` lines of a leaf at nesting `d`.
pub open spec fn html_lines(lines: Seq<Seq<char>>, d: nat, k: int) -> Seq<char>
    decreases k,
{
    if k <= 0 || k > lines.len() {
        Seq::empty()
    } else {
        html_lines(lines, d, k - 1) + indent(d) + "<li>"@ + escaped(lines[k - 1], true) + "</li>\n"@
    }
}

/// The HTML of the first `k` trees of `ch` at nesting `d`.
pub open spec fn html_in(ch: Seq<TreeValue>, d: nat, k: int) -> Seq<char>
    decreases ch, k,
{
    if k <= 0 || k > ch.len() {
        Seq::empty()
    } else {
        html_in(ch, d, k - 1) + html_of(ch[k - 1], d)
    }
}

/// The number of items in a tree, nodes and leaves.
pub open spec fn item_count(t: TreeValue) -> nat {
    node_count_of(t) + leaf_count_of(t)
}

/// The DOT text of `t` whose top is numbered `id`, below the node numbered
/// `parent` if any; items are numbered in document order.
pub open spec fn dot_of(t: TreeValue, id: nat, parent: Option<nat>) -> Seq<char>
    decreases t, 0int,
{
    dot_top(t, id, parent) + match t {
        TreeValue::Node(_, ch) => dot_in(ch, id + 1, id, ch.len() as int),
        TreeValue::Leaf(_) => Seq::empty(),
    }
}

/// The DOT text of the first `k` trees of `ch`, numbered from `first` on,
/// below the node numbered `parent`.
pub open spec fn dot_in(ch: Seq<TreeValue>, first: nat, parent: nat, k: int) -> Seq<char>
    decreases ch, k,
{
    if k <= 0 || k > ch.len() {
        Seq::empty()
    } else {
        dot_in(ch, first, parent, k - 1) + dot_of(
            ch[k - 1],
            first + items_in(ch, k - 1),
            Some(parent),
        )
    }
}

/// The number of items in the first `k` trees of `ch`.
pub open spec fn items_in(ch: Seq<TreeValue>, k: int) -> nat
    decreases k,
{
    if k <= 0 || k > ch.len() {
        0
    } else {
        items_in(ch, k - 1) + item_count(ch[k - 1])
    }
}

/// The digit for `d` below ten, as text.
fn digit_text(d: usize) -> (r: &'static str)
    requires
        d < 10,
    ensures
        r@ == seq![digit(d as nat)],
{
    proof {
        reveal_strlit("0");
        reveal_strlit("1");
        reveal_strlit("2");
        reveal_strlit("3");
        reveal_strlit("4");
        reveal_strlit("5");
        reveal_strlit("6");
        reveal_strlit("7");
        reveal_strlit("8");
        reveal_strlit("9");
    }
    if d == 0 {
        "0"
    } else if d == 1 {
        "1"
    } else if d == 2 {
        "2"
    } else if d == 3 {
        "3"
    } else if d == 4 {
        "4"
    } else if d == 5 {
        "5"
    } else if d == 6 {
        "6"
    } else if d == 7 {
        "7"
    } else if d == 8 {
        "8"
    } else {
        "9"
    }
}

/// Appends the decimal digits of `n` to `out`.
pub(crate) fn push_decimal(out: &mut String, n: usize)
    ensures
        final(out)@ == old(out)@ + decimal(n as nat),
    decreases n,
{
    if n >= 10 {
        push_decimal(out, n / 10);
    }
    out.append(digit_text(n % 10));
}

/// Appends `s` to `out`, escaped for HTML (`html` true) or DOT (`html` false).
fn push_escaped(out: &mut String, s: &str, html: bool)
    ensures
        final(out)@ == old(out)@ + escaped(s@, html),
{
    let ghost start = out@;
    let n = s.unicode_len();
    let mut i: usize = 0;
    proof {
        reveal_strlit("&amp;");
        reveal_strlit("&lt;");
        reveal_strlit("&gt;");
        reveal_strlit("&quot;");
        reveal_strlit("&#x27;");
        reveal_strlit("\\\\");
        reveal_strlit("\\\"");
        reveal_strlit("\\n");
        assert(s@.take(0) =~= Seq::<char>::empty());
    }
    while i < n
        invariant
            n == s@.len(),
            i <= n,
            out@ == start + escaped(s@.take(i as int), html),
        decreases n - i,
    {
        let c = s.get_char(i);
        if html && c == '&' {
            out.append("&amp;");
        } else if html && c == '<' {
            out.append("&lt;");
        } else if html && c == '>' {
            out.append("&gt;");
        } else if html && c == '"' {
            out.append("&quot;");
        } else if html && c == '\'' {
            out.append("&#x27;");
        } else if !html && c == '\\' {
            out.append("\\\\");
        } else if !html && c == '"' {
            out.append("\\\"");
        } else if !html && c == '\n' {
            out.append("\\n");
        } else {
            out.append(s.substring_char(i, i + 1));
            assert(s@.subrange(i as int, i + 1) =~= seq![c]);
        }
        assert(s@.take(i + 1).drop_last() =~= s@.take(i as int));
        i = i + 1;
    }
    assert(s@.take(n as int) =~= s@);
}

/// Appends `n` copies of two spaces to `out`.
fn push_indent(out: &mut String, n: usize)
    ensures
        final(out)@ == old(out)@ + indent(n as nat),
{
    let ghost start = out@;
    let mut i: usize = 0;
    while i < n
        invariant
            i <= n,
            out@ == start + indent(i as nat),
        decreases n - i,
    {
        out.append("  ");
        i = i + 1;
    }
}

/// Appends the HTML list items of `t` at nesting `d` to `out`.
fn html_write(t: &Tree, d: usize, out: &mut String)
    requires
        d + 2 * depth_of(t@) <= usize::MAX,
    ensures
        final(out)@ == old(out)@ + html_of(t@, d as nat),
    decreases t,
{
    let ghost start = out@;
    match t {
        Tree::Node(label, children) => {
            proof {
                lemma_values_of(children@);
            }
            let ghost ch = values_of(children@);
            assert(t@ == TreeValue::Node(label@, ch));
            if children.len() > 0 {
                push_indent(out, d);
                out.append("<li>\n");
                push_indent(out, d);
                out.append("  <details>\n");
                push_indent(out, d);
                out.append("    <summary>");
                push_escaped(out, label.as_str(), true);
                out.append("</summary>\n");
                push_indent(out, d);
                out.append("    <ul>\n");
                let ghost mid = out@;
                let mut i: usize = 0;
                while i < children.len()
                    invariant
                        *t is Node,
                        (*t)->Node_1 == *children,
                        ch == values_of(children@),
                        ch.len() == children@.len(),
                        ch.len() > 0,
                        forall|j: int| 0 <= j < ch.len() ==> #[trigger] ch[j] == children@[j]@,
                        t@ == TreeValue::Node(label@, ch),
                        d + 2 * depth_of(t@) <= usize::MAX,
                        i <= children@.len(),
                        out@ == mid + html_in(ch, (d + 2) as nat, i as int),
                    decreases children@.len() - i,
                {
                    proof {
                        assert(decreases_to!(*t => (*t)->Node_1));
                        crate::stats::lemma_child_depth(ch, i as int);
                    }
                    html_write(&children[i], d + 2, out);
                    i = i + 1;
                }
                push_indent(out, d);
                out.append("    </ul>\n");
                push_indent(out, d);
                out.append("  </details>\n");
                push_indent(out, d);
                out.append("</li>\n");
            } else {
                push_indent(out, d);
                out.append("<li>");
                push_escaped(out, label.as_str(), true);
                out.append("</li>\n");
            }
        },
        Tree::Leaf(lines) => {
            let ghost x = texts(lines@);
            assert(t@ == TreeValue::Leaf(x));
            let mut i: usize = 0;
            while i < lines.len()
                invariant
                    x == texts(lines@),
                    i <= lines@.len(),
                    out@ == start + html_lines(x, d as nat, i as int),
                decreases lines@.len() - i,
            {
                push_indent(out, d);
                out.append("<li>");
                push_escaped(out, lines[i].as_str(), true);
                out.append("</li>\n");
                i = i + 1;
            }
        },
    }
}

/// `items_in` is the sum of nodes and leaves over the same trees.
proof fn lemma_items_in(ch: Seq<TreeValue>, k: int)
    requires
        0 <= k <= ch.len(),
    ensures
        items_in(ch, k) == crate::stats::nodes_in(ch, k) + crate::stats::leaves_in(ch, k),
    decreases k,
{
    if k > 0 {
        lemma_items_in(ch, k - 1);
    }
}

/// `items_in` grows with `k`.
proof fn lemma_items_in_grows(ch: Seq<TreeValue>, i: int, k: int)
    requires
        0 <= i <= k <= ch.len(),
    ensures
        items_in(ch, i) <= items_in(ch, k),
    decreases k - i,
{
    if i < k {
        lemma_items_in_grows(ch, i, k - 1);
    }
}

/// The DOT lines of the top of `t` alone: its own line, then the edge
/// from its parent if any.
pub open spec fn dot_top(t: TreeValue, id: nat, parent: Option<nat>) -> Seq<char> {
    let own = match t {
        TreeValue::Node(label, _) => "  node"@ + decimal(id) + " [label=\""@ + escaped(label, false)
            + "\"];\n"@,
        TreeValue::Leaf(lines) => "  node"@ + decimal(id) + " [label=\""@ + escaped(
            if lines.len() > 0 {
                lines[0]
            } else {
                Seq::empty()
            },
            false,
        ) + "\", shape=box];\n"@,
    };
    let edge = match parent {
        Some(p) => "  node"@ + decimal(p) + " -> node"@ + decimal(id) + ";\n"@,
        None => Seq::empty(),
    };
    own + edge
}

/// Appends the DOT line of the top of `t` alone to `out`.
fn dot_write_own(t: &Tree, id: usize, out: &mut String)
    ensures
        final(out)@ == old(out)@ + dot_top(t@, id as nat, None),
{
    let ghost start = out@;
    out.append("  node");
    push_decimal(out, id);
    out.append(" [label=\"");
    match t {
        Tree::Node(label, _) => {
            push_escaped(out, label.as_str(), false);
            out.append("\"];\n");
        },
        Tree::Leaf(lines) => {
            assert(t@ == TreeValue::Leaf(texts(lines@)));
            if lines.len() > 0 {
                push_escaped(out, lines[0].as_str(), false);
            } else {
                push_escaped(out, "", false);
                proof {
                    reveal_strlit("");
                }
            }
            out.append("\", shape=box];\n");
        },
    }
    assert(out@ =~= start + dot_top(t@, id as nat, None));
}

/// Appends the DOT lines of the top of `t` to `out`.
fn dot_write_top(t: &Tree, id: usize, parent: Option<usize>, out: &mut String)
    ensures
        final(out)@ == old(out)@ + dot_top(t@, id as nat, match parent {
            Some(p) => Some(p as nat),
            None => None,
        }),
{
    let ghost start = out@;
    dot_write_own(t, id, out);
    let ghost mid = out@;
    match parent {
        Some(p) => {
            out.append("  node");
            push_decimal(out, p);
            out.append(" -> node");
            push_decimal(out, id);
            out.append(";\n");
            assert(out@ =~= mid + ("  node"@ + decimal(p as nat) + " -> node"@ + decimal(id as nat) + ";\n"@));
        },
        None => {
            assert(out@ =~= mid + Seq::<char>::empty());
        },
    }
}

/// Appends the DOT text of `t`, numbered from `id` below `parent`, to
/// `out`; returns the next free number.
fn dot_write(t: &Tree, id: usize, parent: Option<usize>, out: &mut String) -> (next: usize)
    requires
        id + item_count(t@) <= usize::MAX,
    ensures
        next == id + item_count(t@),
        final(out)@ == old(out)@ + dot_of(t@, id as nat, match parent {
            Some(p) => Some(p as nat),
            None => None,
        }),
    decreases t,
{
    dot_write_top(t, id, parent, out);
    let ghost mid = out@;
    match t {
        Tree::Node(label, children) => {
            proof {
                lemma_values_of(children@);
                lemma_items_in(values_of(children@), children@.len() as int);
            }
            let ghost ch = values_of(children@);
            assert(t@ == TreeValue::Node(label@, ch));
            let mut cur = id + 1;
            let mut i: usize = 0;
            while i < children.len()
                invariant
                    *t is Node,
                    (*t)->Node_1 == *children,
                    ch == values_of(children@),
                    ch.len() == children@.len(),
                    forall|j: int| 0 <= j < ch.len() ==> #[trigger] ch[j] == children@[j]@,
                    t@ == TreeValue::Node(label@, ch),
                    id + item_count(t@) <= usize::MAX,
                    items_in(ch, ch.len() as int) + 1 == item_count(t@),
                    i <= children@.len(),
                    cur == id + 1 + items_in(ch, i as int),
                    out@ == mid + dot_in(ch, (id + 1) as nat, id as nat, i as int),
                decreases children@.len() - i,
            {
                proof {
                    assert(decreases_to!(*t => (*t)->Node_1));
                    lemma_items_in_grows(ch, i + 1, ch.len() as int);
                }
                cur = dot_write(&children[i], cur, Some(id), out);
                i = i + 1;
            }
            cur
        },
        Tree::Leaf(_) => id + 1,
    }
}

impl Tree {
    /// This tree as HTML: nested lists, nodes with children as collapsible
    /// details.
    pub fn to_html(&self) -> (r: String)
        requires
            2 * depth_of(self@) <= usize::MAX,
        ensures
            r@ == HTML_HEAD@ + html_of(self@, 0) + HTML_TAIL@,
    {
        let mut out = String::from_str(HTML_HEAD);
        html_write(self, 0, &mut out);
        out.append(HTML_TAIL);
        out
    }

    /// This tree as a Graphviz directed graph, items numbered in document
    /// order, leaves drawn as boxes.
    pub fn to_dot(&self) -> (r: String)
        requires
            item_count(self@) <= usize::MAX,
        ensures
            r@ == "digraph Tree {\n"@ + dot_of(self@, 0, None) + "}\n"@,
    {
        let mut out = String::from_str("digraph Tree {\n");
        let _ = dot_write(self, 0, None, &mut out);
        out.append("}\n");
        out
    }
}

} // verus!

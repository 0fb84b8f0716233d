//! The lines of a static tree one by one, each with its prefix, text,
//! depth and last-child flag.
use crate::config::RenderConfig;
use crate::level::LevelPath;
use crate::prefix::{
    compute_prefix, compute_second_line_prefix, continuation_text, lemma_prefix_same_glyphs,
    prefix_text, same_glyphs,
};
use crate::style::StyleConfig;
use crate::tree::{lemma_values_of, texts, values_of, Tree, TreeValue};
use vstd::prelude::*;

verus! {

/// One line of a tree.
pub struct Line {
    pub prefix: String,
    pub content: String,
    pub depth: usize,
    pub is_last: bool,
}

/// The value of a line: prefix, text, depth and last-child flag.
pub open spec fn line_value(l: Line) -> (Seq<char>, Seq<char>, nat, bool) {
    (l.prefix@, l.content@, l.depth as nat, l.is_last)
}

/// The values of a sequence of lines.
pub open spec fn line_values(s: Seq<Line>) -> Seq<(Seq<char>, Seq<char>, nat, bool)> {
    s.map_values(|l: Line| line_value(l))
}

/// The lines of a leaf of several lines whose own path is `level`: the
/// first drawn with the prefix of `level`, the others with its continuation,
/// all at the depth `level.len()`.
pub open spec fn leaf_rows(lines: Seq<Seq<char>>, level: Seq<bool>, style: StyleConfig, k: int) -> Seq<(Seq<char>, Seq<char>, nat, bool)>
    decreases k,
{
    if k <= 0 || k > lines.len() {
        Seq::empty()
    } else {
        leaf_rows(lines, level, style, k - 1) + seq![
            (if k - 1 == 0 {
                prefix_text(level, style)
            } else {
                continuation_text(level, style)
            }, lines[k - 1], level.len(), false),
        ]
    }
}

/// The lines of a child, the `is_last` one among its siblings, of a node
/// whose path is `level`: the child is drawn with its own path
/// `level.push(is_last)`, one level deeper than its parent.
pub open spec fn child_rows(t: TreeValue, level: Seq<bool>, is_last: bool, style: StyleConfig) -> Seq<(Seq<char>, Seq<char>, nat, bool)>
    decreases t, 0int,
{
    let own = level.push(is_last);
    match t {
        TreeValue::Node(label, ch) => seq![(prefix_text(own, style), label, own.len(), is_last)]
            + rows_in(ch, own, style, ch.len() as int),
        TreeValue::Leaf(lines) => if lines.len() == 0 {
            Seq::empty()
        } else if lines.len() == 1 {
            seq![(prefix_text(own, style), lines[0], own.len(), is_last)]
        } else {
            leaf_rows(lines, own, style, lines.len() as int)
        },
    }
}

/// The lines of the first `k` children `ch` of a node at `level`.
pub open spec fn rows_in(ch: Seq<TreeValue>, level: Seq<bool>, style: StyleConfig, k: int) -> Seq<(Seq<char>, Seq<char>, nat, bool)>
    decreases ch, k,
{
    if k <= 0 || k > ch.len() {
        Seq::empty()
    } else {
        rows_in(ch, level, style, k - 1) + child_rows(ch[k - 1], level, k == ch.len(), style)
    }
}

/// The lines of a whole tree: its top with no prefix, then the lines below it.
pub open spec fn tree_rows(t: TreeValue, style: StyleConfig) -> Seq<(Seq<char>, Seq<char>, nat, bool)> {
    match t {
        TreeValue::Node(label, ch) => seq![(Seq::empty(), label, 0nat, true)] + rows_in(
            ch,
            Seq::empty(),
            style,
            ch.len() as int,
        ),
        TreeValue::Leaf(lines) => if lines.len() == 0 {
            Seq::empty()
        } else if lines.len() == 1 {
            seq![(Seq::empty(), lines[0], 0nat, true)]
        } else {
            leaf_rows(lines, Seq::empty(), style, lines.len() as int)
        },
    }
}

/// Appends the lines of a leaf of several lines whose own path is `level`.
fn push_leaf_rows(lines: &Vec<String>, level: &LevelPath, style: &StyleConfig, out: &mut Vec<Line>)
    ensures
        line_values(final(out)@) == line_values(old(out)@) + leaf_rows(
            texts(lines@),
            level@,
            *style,
            lines@.len() as int,
        ),
{
    let ghost start = line_values(out@);
    let first = compute_prefix(level, style);
    let rest = compute_second_line_prefix(level, style);
    let mut i: usize = 0;
    while i < lines.len()
        invariant
            i <= lines@.len(),
            first@ == prefix_text(level@, *style),
            rest@ == continuation_text(level@, *style),
            line_values(out@) == start + leaf_rows(texts(lines@), level@, *style, i as int),
        decreases lines@.len() - i,
    {
        let p = if i == 0 {
            first.clone()
        } else {
            rest.clone()
        };
        let ghost before = out@;
        out.push(Line { prefix: p, content: lines[i].clone(), depth: level.len(), is_last: false });
        assert(line_values(out@) =~= line_values(before).push(line_value(out@.last())));
        i = i + 1;
    }
}

/// Appends the lines of `t`, the `is_last` child of a node at `level`.
fn push_child_rows(t: &Tree, level: &LevelPath, is_last: bool, style: &StyleConfig, out: &mut Vec<Line>)
    ensures
        line_values(final(out)@) == line_values(old(out)@) + child_rows(t@, level@, is_last, *style),
    decreases t,
{
    let ghost start = line_values(out@);
    let next = level.with_child(is_last);
    match t {
        Tree::Node(label, children) => {
            proof {
                lemma_values_of(children@);
            }
            let ghost ch = values_of(children@);
            assert(t@ == TreeValue::Node(label@, ch));
            let p = compute_prefix(&next, style);
            out.push(Line { prefix: p, content: label.clone(), depth: next.len(), is_last });
            assert(line_values(out@) =~= start + seq![(prefix_text(next@, *style), label@, next@.len(), is_last)]);
            let ghost mid = line_values(out@);
            let n = children.len();
            let mut i: usize = 0;
            while i < n
                invariant
                    n == children@.len(),
                    *t is Node,
                    (*t)->Node_1 == *children,
                    ch == values_of(children@),
                    ch.len() == n,
                    forall|j: int| 0 <= j < ch.len() ==> #[trigger] ch[j] == children@[j]@,
                    next@ == level@.push(is_last),
                    i <= n,
                    line_values(out@) == mid + rows_in(ch, next@, *style, i as int),
                decreases n - i,
            {
                proof {
                    assert(decreases_to!(*t => (*t)->Node_1));
                }
                push_child_rows(&children[i], &next, i + 1 == n, style, out);
                i = i + 1;
            }
        },
        Tree::Leaf(lines) => {
            assert(t@ == TreeValue::Leaf(texts(lines@)));
            if lines.len() == 1 {
                let p = compute_prefix(&next, style);
                out.push(Line { prefix: p, content: lines[0].clone(), depth: next.len(), is_last });
                assert(line_values(out@) =~= start + child_rows(t@, level@, is_last, *style));
            } else if lines.len() > 1 {
                push_leaf_rows(lines, &next, style, out);
            } else {
                assert(line_values(out@) =~= start + child_rows(t@, level@, is_last, *style));
            }
        },
    }
}

/// The lines of `t`.
fn rows_of(t: &Tree, style: &StyleConfig) -> (r: Vec<Line>)
    ensures
        line_values(r@) == tree_rows(t@, *style),
{
    let mut out: Vec<Line> = Vec::new();
    let level = LevelPath::new();
    match t {
        Tree::Node(label, children) => {
            proof {
                lemma_values_of(children@);
            }
            let ghost ch = values_of(children@);
            assert(t@ == TreeValue::Node(label@, ch));
            out.push(Line { prefix: String::new(), content: label.clone(), depth: 0, is_last: true });
            let ghost mid = line_values(out@);
            assert(mid =~= seq![(Seq::<char>::empty(), label@, 0nat, true)]);
            let n = children.len();
            let mut i: usize = 0;
            while i < n
                invariant
                    n == children@.len(),
                    ch == values_of(children@),
                    ch.len() == n,
                    forall|j: int| 0 <= j < ch.len() ==> #[trigger] ch[j] == children@[j]@,
                    level@ == Seq::<bool>::empty(),
                    i <= n,
                    line_values(out@) == mid + rows_in(ch, level@, *style, i as int),
                decreases n - i,
            {
                push_child_rows(&children[i], &level, i + 1 == n, style, &mut out);
                i = i + 1;
            }
        },
        Tree::Leaf(lines) => {
            assert(t@ == TreeValue::Leaf(texts(lines@)));
            if lines.len() == 1 {
                out.push(Line { prefix: String::new(), content: lines[0].clone(), depth: 0, is_last: true });
                assert(line_values(out@) =~= tree_rows(t@, *style));
            } else if lines.len() > 1 {
                push_leaf_rows(lines, &level, style, &mut out);
                assert(line_values(out@) =~= tree_rows(t@, *style));
            } else {
                assert(line_values(out@) =~= tree_rows(t@, *style));
            }
        },
    }
    out
}

/// The lines of a tree, handed out one at a time.
pub struct TreeLines {
    rows: Vec<Line>,
    next: usize,
}

impl TreeLines {
    /// The position stays within the lines.
    pub closed spec fn wf(&self) -> bool {
        self.next <= self.rows@.len()
    }

    /// The lines still to come.
    pub closed spec fn remaining(&self) -> Seq<(Seq<char>, Seq<char>, nat, bool)> {
        line_values(self.rows@).skip(self.next as int)
    }

    /// The lines of `tree` drawn with the default glyphs.
    pub fn new(tree: &Tree) -> (r: Self)
        ensures
            r.wf(),
            forall|c: RenderConfig| crate::config::is_default_config(c) ==> r.remaining() == tree_rows(tree@, c.style),
    {
        let config = RenderConfig::default();
        let r = Self::with_config(tree, &config);
        proof {
            assert forall|c: RenderConfig| crate::config::is_default_config(c) implies tree_rows(tree@, c.style) == tree_rows(tree@, config.style) by {
                lemma_rows_same_style(tree@, c.style, config.style);
            }
        }
        r
    }

    /// The lines of `tree` drawn with the glyphs of `config`.
    pub fn with_config(tree: &Tree, config: &RenderConfig) -> (r: Self)
        ensures
            r.wf(),
            r.remaining() == tree_rows(tree@, config.style),
    {
        let rows = rows_of(tree, &config.style);
        let r = TreeLines { rows, next: 0 };
        assert(line_values(r.rows@).skip(0) =~= line_values(r.rows@));
        r
    }

    /// The next line, if any is left.
    pub fn next(&mut self) -> (r: Option<Line>)
        requires
            old(self).wf(),
        ensures
            final(self).wf(),
            old(self).remaining().len() == 0 ==> r is None,
            old(self).remaining().len() > 0 ==> r is Some && line_value(r->Some_0) == old(self).remaining()[0]
                && final(self).remaining() == old(self).remaining().drop_first(),
    {
        if self.next < self.rows.len() {
            let l = &self.rows[self.next];
            let r = Line { prefix: l.prefix.clone(), content: l.content.clone(), depth: l.depth, is_last: l.is_last };
            self.next = self.next + 1;
            assert(line_values(self.rows@).skip(self.next as int) =~= line_values(self.rows@).skip(self.next - 1).drop_first());
            Some(r)
        } else {
            None
        }
    }

    /// The lines still to come, all at once.
    pub fn collect(self) -> (r: Vec<Line>)
        requires
            self.wf(),
        ensures
            line_values(r@) == self.remaining(),
    {
        let mut out: Vec<Line> = Vec::new();
        let mut i = self.next;
        while i < self.rows.len()
            invariant
                self.next <= i <= self.rows@.len(),
                line_values(out@) =~= line_values(self.rows@).subrange(self.next as int, i as int),
            decreases self.rows@.len() - i,
        {
            let l = &self.rows[i];
            let ghost before = out@;
            out.push(Line { prefix: l.prefix.clone(), content: l.content.clone(), depth: l.depth, is_last: l.is_last });
            assert(line_values(out@) =~= line_values(before).push(line_value(self.rows@[i as int])));
            i = i + 1;
        }
        out
    }
}

proof fn lemma_leaf_rows_same(lines: Seq<Seq<char>>, level: Seq<bool>, a: StyleConfig, b: StyleConfig, k: int)
    requires
        same_glyphs(a, b),
    ensures
        leaf_rows(lines, level, a, k) == leaf_rows(lines, level, b, k),
    decreases k,
{
    lemma_prefix_same_glyphs(level, a, b);
    if k > 0 && k <= lines.len() {
        lemma_leaf_rows_same(lines, level, a, b, k - 1);
    }
}

proof fn lemma_child_rows_same(t: TreeValue, level: Seq<bool>, is_last: bool, a: StyleConfig, b: StyleConfig)
    requires
        same_glyphs(a, b),
    ensures
        child_rows(t, level, is_last, a) == child_rows(t, level, is_last, b),
    decreases t, 0int,
{
    lemma_prefix_same_glyphs(level.push(is_last), a, b);
    match t {
        TreeValue::Node(_, ch) => {
            lemma_rows_in_same(ch, level.push(is_last), a, b, ch.len() as int);
        },
        TreeValue::Leaf(lines) => {
            lemma_leaf_rows_same(lines, level.push(is_last), a, b, lines.len() as int);
        },
    }
}

proof fn lemma_rows_in_same(ch: Seq<TreeValue>, level: Seq<bool>, a: StyleConfig, b: StyleConfig, k: int)
    requires
        same_glyphs(a, b),
    ensures
        rows_in(ch, level, a, k) == rows_in(ch, level, b, k),
    decreases ch, k,
{
    if k > 0 && k <= ch.len() {
        lemma_rows_in_same(ch, level, a, b, k - 1);
        lemma_child_rows_same(ch[k - 1], level, k == ch.len(), a, b);
    }
}

/// The lines of a tree depend on the glyphs' texts alone.
proof fn lemma_rows_same_style(t: TreeValue, a: StyleConfig, b: StyleConfig)
    requires
        same_glyphs(a, b),
    ensures
        tree_rows(t, a) == tree_rows(t, b),
{
    match t {
        TreeValue::Node(_, ch) => {
            lemma_rows_in_same(ch, Seq::empty(), a, b, ch.len() as int);
        },
        TreeValue::Leaf(lines) => {
            lemma_leaf_rows_same(lines, Seq::empty(), a, b, lines.len() as int);
        },
    }
}

/// Each line as one string: its prefix, then its text.
pub open spec fn joined(rows: Seq<(Seq<char>, Seq<char>, nat, bool)>) -> Seq<Seq<char>> {
    rows.map_values(|r: (Seq<char>, Seq<char>, nat, bool)| r.0 + r.1)
}

/// Each line of `t`, drawn with `style`, as one string.
fn joined_lines(t: &Tree, style: &StyleConfig) -> (r: Vec<String>)
    ensures
        r@.map_values(|s: String| s@) == joined(tree_rows(t@, *style)),
{
    let rows = rows_of(t, style);
    let mut out: Vec<String> = Vec::new();
    let mut i: usize = 0;
    while i < rows.len()
        invariant
            i <= rows@.len(),
            line_values(rows@) == tree_rows(t@, *style),
            out@.len() == i,
            forall|j: int| 0 <= j < i ==> #[trigger] out@[j]@ == rows@[j].prefix@ + rows@[j].content@,
        decreases rows@.len() - i,
    {
        let mut s = rows[i].prefix.clone();
        s.append(rows[i].content.as_str());
        out.push(s);
        i = i + 1;
    }
    assert(out@.map_values(|s: String| s@) =~= joined(tree_rows(t@, *style)));
    out
}

/// Line-by-line access to a tree.
pub trait TreeIteratorExt {
    /// The lines, drawn with the default glyphs.
    fn lines(&self) -> TreeLines;

    /// The lines, drawn with the glyphs of `config`.
    fn lines_with_config(&self, config: &RenderConfig) -> TreeLines;

    /// Each line, drawn with the default glyphs, as one string.
    fn to_lines(&self) -> Vec<String>;

    /// Each line, drawn with the glyphs of `config`, as one string.
    fn to_lines_with_config(&self, config: &RenderConfig) -> Vec<String>;
}

impl TreeIteratorExt for Tree {
    fn lines(&self) -> TreeLines {
        TreeLines::new(self)
    }

    fn lines_with_config(&self, config: &RenderConfig) -> (r: TreeLines)
        ensures
            r.wf(),
            r.remaining() == tree_rows(self@, config.style),
    {
        TreeLines::with_config(self, config)
    }

    fn to_lines(&self) -> (r: Vec<String>)
        ensures
            forall|c: RenderConfig| crate::config::is_default_config(c) ==> r@.map_values(|s: String| s@) == joined(tree_rows(self@, c.style)),
    {
        let config = RenderConfig::default();
        let r = joined_lines(self, &config.style);
        proof {
            assert forall|c: RenderConfig| crate::config::is_default_config(c) implies tree_rows(self@, c.style) == tree_rows(self@, config.style) by {
                lemma_rows_same_style(self@, c.style, config.style);
            }
        }
        r
    }

    fn to_lines_with_config(&self, config: &RenderConfig) -> (r: Vec<String>)
        ensures
            r@.map_values(|s: String| s@) == joined(tree_rows(self@, config.style)),
    {
        joined_lines(self, &config.style)
    }
}

} // verus!

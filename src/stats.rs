//! Measures of a static tree: depth, width and counts.
use crate::tree::{lemma_values_of, texts, values_of, Tree, TreeValue};
use vstd::prelude::*;

verus! {

/// The number of nodes in a tree.
pub open spec fn node_count_of(t: TreeValue) -> nat
    decreases t, 0int,
{
    match t {
        TreeValue::Node(_, ch) => 1 + nodes_in(ch, ch.len() as int),
        TreeValue::Leaf(lines) => 0,
    }
}

/// The number of nodes in the first `k` trees of `ch`.
pub open spec fn nodes_in(ch: Seq<TreeValue>, k: int) -> nat
    decreases ch, k,
{
    if k <= 0 || k > ch.len() {
        0
    } else {
        nodes_in(ch, k - 1) + node_count_of(ch[k - 1])
    }
}

proof fn lemma_nodes_in_grows(ch: Seq<TreeValue>, i: int, k: int)
    requires
        0 <= i <= k <= ch.len(),
    ensures
        nodes_in(ch, i) <= nodes_in(ch, k),
    decreases k - i,
{
    if i < k {
        lemma_nodes_in_grows(ch, i, k - 1);
    }
}

impl Tree {
    /// The number of nodes, this one included.
    pub fn node_count(&self) -> (r: usize)
        requires
            node_count_of(self@) <= usize::MAX,
        ensures
            r == node_count_of(self@),
        decreases self,
    {
        match self {
            Tree::Node(_, children) => {
                proof {
                    lemma_values_of(children@);
                }
                let ghost ch = values_of(children@);
                let mut acc: usize = 1;
                let mut i: usize = 0;
                while i < children.len()
                    invariant
                        *self is Node,
                        (*self)->Node_1 == *children,
                        ch == values_of(children@),
                        ch.len() == children@.len(),
                        forall|j: int| 0 <= j < ch.len() ==> #[trigger] ch[j] == children@[j]@,
                        self@ == TreeValue::Node(self@->Node_0, ch),
                        node_count_of(self@) <= usize::MAX,
                        i <= children@.len(),
                        acc == 1 + nodes_in(ch, i as int),
                    decreases children@.len() - i,
                {
                    proof {
                        assert(decreases_to!(*self => (*self)->Node_1));
                        lemma_nodes_in_grows(ch, i + 1, ch.len() as int);
                    }
                    let c = children[i].node_count();
                    acc = acc + c;
                    i = i + 1;
                }
                acc
            },
            Tree::Leaf(lines) => 0,
        }
    }
}

/// The number of leaves in a tree.
pub open spec fn leaf_count_of(t: TreeValue) -> nat
    decreases t, 0int,
{
    match t {
        TreeValue::Node(_, ch) => leaves_in(ch, ch.len() as int),
        TreeValue::Leaf(lines) => 1,
    }
}

/// The number of leaves in the first `k` trees of `ch`.
pub open spec fn leaves_in(ch: Seq<TreeValue>, k: int) -> nat
    decreases ch, k,
{
    if k <= 0 || k > ch.len() {
        0
    } else {
        leaves_in(ch, k - 1) + leaf_count_of(ch[k - 1])
    }
}

proof fn lemma_leaves_in_grows(ch: Seq<TreeValue>, i: int, k: int)
    requires
        0 <= i <= k <= ch.len(),
    ensures
        leaves_in(ch, i) <= leaves_in(ch, k),
    decreases k - i,
{
    if i < k {
        lemma_leaves_in_grows(ch, i, k - 1);
    }
}

impl Tree {
    /// The number of leaves.
    pub fn leaf_count(&self) -> (r: usize)
        requires
            leaf_count_of(self@) <= usize::MAX,
        ensures
            r == leaf_count_of(self@),
        decreases self,
    {
        match self {
            Tree::Node(_, children) => {
                proof {
                    lemma_values_of(children@);
                }
                let ghost ch = values_of(children@);
                let mut acc: usize = 0;
                let mut i: usize = 0;
                while i < children.len()
                    invariant
                        *self is Node,
                        (*self)->Node_1 == *children,
                        ch == values_of(children@),
                        ch.len() == children@.len(),
                        forall|j: int| 0 <= j < ch.len() ==> #[trigger] ch[j] == children@[j]@,
                        self@ == TreeValue::Node(self@->Node_0, ch),
                        leaf_count_of(self@) <= usize::MAX,
                        i <= children@.len(),
                        acc == 0 + leaves_in(ch, i as int),
                    decreases children@.len() - i,
                {
                    proof {
                        assert(decreases_to!(*self => (*self)->Node_1));
                        lemma_leaves_in_grows(ch, i + 1, ch.len() as int);
                    }
                    let c = children[i].leaf_count();
                    acc = acc + c;
                    i = i + 1;
                }
                acc
            },
            Tree::Leaf(lines) => 1,
        }
    }
}

/// The number of leaf lines in a tree.
pub open spec fn line_count_of(t: TreeValue) -> nat
    decreases t, 0int,
{
    match t {
        TreeValue::Node(_, ch) => lines_in(ch, ch.len() as int),
        TreeValue::Leaf(lines) => lines.len(),
    }
}

/// The number of leaf lines in the first `k` trees of `ch`.
pub open spec fn lines_in(ch: Seq<TreeValue>, k: int) -> nat
    decreases ch, k,
{
    if k <= 0 || k > ch.len() {
        0
    } else {
        lines_in(ch, k - 1) + line_count_of(ch[k - 1])
    }
}

proof fn lemma_lines_in_grows(ch: Seq<TreeValue>, i: int, k: int)
    requires
        0 <= i <= k <= ch.len(),
    ensures
        lines_in(ch, i) <= lines_in(ch, k),
    decreases k - i,
{
    if i < k {
        lemma_lines_in_grows(ch, i, k - 1);
    }
}

impl Tree {
    /// The number of lines over all leaves.
    pub fn total_lines(&self) -> (r: usize)
        requires
            line_count_of(self@) <= usize::MAX,
        ensures
            r == line_count_of(self@),
        decreases self,
    {
        match self {
            Tree::Node(_, children) => {
                proof {
                    lemma_values_of(children@);
                }
                let ghost ch = values_of(children@);
                let mut acc: usize = 0;
                let mut i: usize = 0;
                while i < children.len()
                    invariant
                        *self is Node,
                        (*self)->Node_1 == *children,
                        ch == values_of(children@),
                        ch.len() == children@.len(),
                        forall|j: int| 0 <= j < ch.len() ==> #[trigger] ch[j] == children@[j]@,
                        self@ == TreeValue::Node(self@->Node_0, ch),
                        line_count_of(self@) <= usize::MAX,
                        i <= children@.len(),
                        acc == 0 + lines_in(ch, i as int),
                    decreases children@.len() - i,
                {
                    proof {
                        assert(decreases_to!(*self => (*self)->Node_1));
                        lemma_lines_in_grows(ch, i + 1, ch.len() as int);
                    }
                    let c = children[i].total_lines();
                    acc = acc + c;
                    i = i + 1;
                }
                acc
            },
            Tree::Leaf(lines) => {
                proof {
                    assert(self@ == TreeValue::Leaf(texts(lines@)));
                }
                lines.len()
            },
        }
    }
}

/// The number of edges on the longest path down from a node; leaves and
/// nodes without children have depth 0.
pub open spec fn depth_of(t: TreeValue) -> nat
    decreases t, 0int,
{
    match t {
        TreeValue::Node(_, ch) => if ch.len() == 0 {
            0
        } else {
            1 + deepest_in(ch, ch.len() as int)
        },
        TreeValue::Leaf(_) => 0,
    }
}

/// The greatest depth among the first `k` trees of `ch`.
pub open spec fn deepest_in(ch: Seq<TreeValue>, k: int) -> nat
    decreases ch, k,
{
    if k <= 0 || k > ch.len() {
        0
    } else {
        let a = deepest_in(ch, k - 1);
        let b = depth_of(ch[k - 1]);
        if a >= b {
            a
        } else {
            b
        }
    }
}

proof fn lemma_deepest_grows(ch: Seq<TreeValue>, i: int, k: int)
    requires
        0 <= i <= k <= ch.len(),
    ensures
        deepest_in(ch, i) <= deepest_in(ch, k),
        i > 0 ==> depth_of(ch[i - 1]) <= deepest_in(ch, k),
    decreases k - i,
{
    if i < k {
        lemma_deepest_grows(ch, i, k - 1);
    }
}

/// The largest number of children of any node in a tree; 0 where it has no node.
pub open spec fn width_of(t: TreeValue) -> nat
    decreases t, 0int,
{
    match t {
        TreeValue::Node(_, ch) => {
            let w = widest_in(ch, ch.len() as int);
            if ch.len() >= w {
                ch.len()
            } else {
                w
            }
        },
        TreeValue::Leaf(_) => 0,
    }
}

/// The largest width among the first `k` trees of `ch`.
pub open spec fn widest_in(ch: Seq<TreeValue>, k: int) -> nat
    decreases ch, k,
{
    if k <= 0 || k > ch.len() {
        0
    } else {
        let a = widest_in(ch, k - 1);
        let b = width_of(ch[k - 1]);
        if a >= b {
            a
        } else {
            b
        }
    }
}

/// The measures of a tree, together.
pub struct TreeStats {
    pub depth: usize,
    pub width: usize,
    pub node_count: usize,
    pub leaf_count: usize,
    pub total_lines: usize,
}

impl Tree {
    /// The number of edges on the longest path down from this tree's top.
    pub fn depth(&self) -> (r: usize)
        requires
            depth_of(self@) <= usize::MAX,
        ensures
            r == depth_of(self@),
        decreases self,
    {
        match self {
            Tree::Node(_, children) => {
                proof {
                    lemma_values_of(children@);
                }
                let ghost ch = values_of(children@);
                if children.len() == 0 {
                    return 0;
                }
                let mut best: usize = 0;
                let mut i: usize = 0;
                while i < children.len()
                    invariant
                        *self is Node,
                        (*self)->Node_1 == *children,
                        ch == values_of(children@),
                        ch.len() == children@.len(),
                        ch.len() > 0,
                        forall|j: int| 0 <= j < ch.len() ==> #[trigger] ch[j] == children@[j]@,
                        self@ == TreeValue::Node(self@->Node_0, ch),
                        depth_of(self@) <= usize::MAX,
                        i <= children@.len(),
                        best == deepest_in(ch, i as int),
                    decreases children@.len() - i,
                {
                    proof {
                        assert(decreases_to!(*self => (*self)->Node_1));
                        lemma_deepest_grows(ch, i + 1, ch.len() as int);
                    }
                    let d = children[i].depth();
                    if d > best {
                        best = d;
                    }
                    i = i + 1;
                }
                proof {
                    lemma_deepest_grows(ch, i as int, ch.len() as int);
                }
                best + 1
            },
            Tree::Leaf(_) => 0,
        }
    }

    /// The largest number of children of any node in this tree.
    pub fn width(&self) -> (r: usize)
        ensures
            r == width_of(self@),
        decreases self,
    {
        match self {
            Tree::Node(_, children) => {
                proof {
                    lemma_values_of(children@);
                }
                let ghost ch = values_of(children@);
                let mut best: usize = 0;
                let mut i: usize = 0;
                while i < children.len()
                    invariant
                        *self is Node,
                        (*self)->Node_1 == *children,
                        ch == values_of(children@),
                        ch.len() == children@.len(),
                        forall|j: int| 0 <= j < ch.len() ==> #[trigger] ch[j] == children@[j]@,
                        self@ == TreeValue::Node(self@->Node_0, ch),
                        i <= children@.len(),
                        best == widest_in(ch, i as int),
                    decreases children@.len() - i,
                {
                    proof {
                        assert(decreases_to!(*self => (*self)->Node_1));
                    }
                    let w = children[i].width();
                    if w > best {
                        best = w;
                    }
                    i = i + 1;
                }
                if children.len() >= best {
                    children.len()
                } else {
                    best
                }
            },
            Tree::Leaf(_) => 0,
        }
    }

    /// All the measures of this tree.
    pub fn stats(&self) -> (r: TreeStats)
        requires
            depth_of(self@) <= usize::MAX,
            node_count_of(self@) <= usize::MAX,
            leaf_count_of(self@) <= usize::MAX,
            line_count_of(self@) <= usize::MAX,
        ensures
            r.depth == depth_of(self@),
            r.width == width_of(self@),
            r.node_count == node_count_of(self@),
            r.leaf_count == leaf_count_of(self@),
            r.total_lines == line_count_of(self@),
    {
        TreeStats {
            depth: self.depth(),
            width: self.width(),
            node_count: self.node_count(),
            leaf_count: self.leaf_count(),
            total_lines: self.total_lines(),
        }
    }
}

/// A child is at most one level less deep than its parent.
pub proof fn lemma_child_depth(ch: Seq<TreeValue>, i: int)
    requires
        0 <= i < ch.len(),
    ensures
        depth_of(ch[i]) + 1 <= 1 + deepest_in(ch, ch.len() as int),
{
    lemma_deepest_grows(ch, i + 1, ch.len() as int);
}

} // verus!

//! Comparing static trees: shape, differences, and containment.
use crate::tree::{lemma_values_of, texts, values_of, Tree, TreeValue};
use vstd::prelude::*;

verus! {

/// Whether two trees have the same shape: nodes where nodes are, with as
/// many children, and leaves where leaves are; labels and lines aside.
pub open spec fn same_shape(a: TreeValue, b: TreeValue) -> bool
    decreases a, 0int,
{
    match (a, b) {
        (TreeValue::Node(_, ca), TreeValue::Node(_, cb)) => ca.len() == cb.len() && same_shape_in(
            ca,
            cb,
            ca.len() as int,
        ),
        (TreeValue::Leaf(_), TreeValue::Leaf(_)) => true,
        _ => false,
    }
}

/// Whether the first `k` trees of `ca` and `cb` have the same shapes, pair by pair.
pub open spec fn same_shape_in(ca: Seq<TreeValue>, cb: Seq<TreeValue>, k: int) -> bool
    decreases ca, k,
{
    if k <= 0 || k > ca.len() || k > cb.len() {
        true
    } else {
        same_shape_in(ca, cb, k - 1) && same_shape(ca[k - 1], cb[k - 1])
    }
}

/// Whether `a` equals `b` or one of the trees below it.
pub open spec fn occurs_within(a: TreeValue, b: TreeValue) -> bool
    decreases b, 0int,
{
    a == b || match b {
        TreeValue::Node(_, ch) => occurs_within_in(a, ch, ch.len() as int),
        TreeValue::Leaf(_) => false,
    }
}

/// Whether `a` occurs within one of the first `k` trees of `ch`.
pub open spec fn occurs_within_in(a: TreeValue, ch: Seq<TreeValue>, k: int) -> bool
    decreases ch, k,
{
    if k <= 0 || k > ch.len() {
        false
    } else {
        occurs_within_in(a, ch, k - 1) || occurs_within(a, ch[k - 1])
    }
}

/// One difference between two trees, at a path of child indexes.
pub enum TreeDiff {
    /// An item that only the first tree has.
    OnlyInFirst { path: Vec<usize>, content: String },
    /// An item that only the second tree has.
    OnlyInSecond { path: Vec<usize>, content: String },
    /// Items in both trees whose labels or lines differ.
    DifferentContent { path: Vec<usize>, first: String, second: String },
}

/// The value of a difference: its kind (0 only in the first, 1 only in the
/// second, 2 different content), its path, and the texts it reports.
pub open spec fn diff_value(d: TreeDiff) -> (nat, Seq<usize>, Seq<char>, Seq<char>) {
    match d {
        TreeDiff::OnlyInFirst { path, content } => (0, path@, content@, Seq::empty()),
        TreeDiff::OnlyInSecond { path, content } => (1, path@, content@, Seq::empty()),
        TreeDiff::DifferentContent { path, first, second } => (2, path@, first@, second@),
    }
}

/// The text that stands for an item: a node's label, a leaf's first line.
pub open spec fn summary(t: TreeValue) -> Seq<char> {
    match t {
        TreeValue::Node(label, _) => label,
        TreeValue::Leaf(lines) => if lines.len() > 0 {
            lines[0]
        } else {
            Seq::empty()
        },
    }
}

/// The differences between `a` and `b`, both at path `p`, in document order.
pub open spec fn diffs(a: TreeValue, b: TreeValue, p: Seq<usize>) -> Seq<(nat, Seq<usize>, Seq<char>, Seq<char>)>
    decreases a, 0int,
{
    match (a, b) {
        (TreeValue::Node(la, ca), TreeValue::Node(lb, cb)) => (if la != lb {
            seq![(2nat, p, la, lb)]
        } else {
            Seq::empty()
        }) + diffs_in(ca, cb, p, if ca.len() >= cb.len() {
            ca.len() as int
        } else {
            cb.len() as int
        }),
        (TreeValue::Leaf(x), TreeValue::Leaf(y)) => if x != y {
            seq![(2nat, p, summary(a), summary(b))]
        } else {
            Seq::empty()
        },
        _ => seq![(2nat, p, summary(a), summary(b))],
    }
}

/// The differences between the first `k` children of two nodes at `p`.
pub open spec fn diffs_in(
    ca: Seq<TreeValue>,
    cb: Seq<TreeValue>,
    p: Seq<usize>,
    k: int,
) -> Seq<(nat, Seq<usize>, Seq<char>, Seq<char>)>
    decreases ca, k,
{
    if k <= 0 {
        Seq::empty()
    } else {
        let i = k - 1;
        let q = p.push(i as usize);
        diffs_in(ca, cb, p, k - 1) + if i < ca.len() && i < cb.len() {
            diffs(ca[i], cb[i], q)
        } else if i < ca.len() {
            seq![(0nat, q, summary(ca[i]), Seq::<char>::empty())]
        } else if i < cb.len() {
            seq![(1nat, q, summary(cb[i]), Seq::<char>::empty())]
        } else {
            Seq::empty()
        }
    }
}

/// The values of a sequence of differences.
pub open spec fn diff_values(s: Seq<TreeDiff>) -> Seq<(nat, Seq<usize>, Seq<char>, Seq<char>)> {
    s.map_values(|d: TreeDiff| diff_value(d))
}

/// The text that stands for an item.
fn summary_of(t: &Tree) -> (r: String)
    ensures
        r@ == summary(t@),
{
    match t {
        Tree::Node(label, _) => label.clone(),
        Tree::Leaf(lines) => {
            assert(t@ == TreeValue::Leaf(texts(lines@)));
            if lines.len() > 0 {
                lines[0].clone()
            } else {
                String::new()
            }
        },
    }
}

/// Appends the differences between `a` and `b`, both at `path`, to `out`.
fn diff_into(a: &Tree, b: &Tree, path: &Vec<usize>, out: &mut Vec<TreeDiff>)
    ensures
        diff_values(final(out)@) == diff_values(old(out)@) + diffs(a@, b@, path@),
    decreases a,
{
    let ghost start = diff_values(out@);
    match a {
        Tree::Node(la, ca) => match b {
            Tree::Node(lb, cb) => {
                proof {
                    lemma_values_of(ca@);
                    lemma_values_of(cb@);
                }
                let ghost va = values_of(ca@);
                let ghost vb = values_of(cb@);
                if *la != *lb {
                    out.push(TreeDiff::DifferentContent { path: path.clone(), first: la.clone(), second: lb.clone() });
                }
                let ghost mid = diff_values(out@);
                assert(mid =~= start + (if la@ != lb@ {
                    seq![(2nat, path@, la@, lb@)]
                } else {
                    Seq::empty()
                }));
                let n = if ca.len() >= cb.len() {
                    ca.len()
                } else {
                    cb.len()
                };
                let mut i: usize = 0;
                while i < n
                    invariant
                        *a is Node,
                        (*a)->Node_1 == *ca,
                        va == values_of(ca@),
                        vb == values_of(cb@),
                        va.len() == ca@.len(),
                        vb.len() == cb@.len(),
                        forall|j: int| 0 <= j < va.len() ==> #[trigger] va[j] == ca@[j]@,
                        forall|j: int| 0 <= j < vb.len() ==> #[trigger] vb[j] == cb@[j]@,
                        n == if ca@.len() >= cb@.len() {
                            ca@.len()
                        } else {
                            cb@.len()
                        },
                        i <= n,
                        diff_values(out@) == mid + diffs_in(va, vb, path@, i as int),
                    decreases n - i,
                {
                    proof {
                        assert(decreases_to!(*a => (*a)->Node_1));
                    }
                    let mut q = path.clone();
                    q.push(i);
                    let ghost before = diff_values(out@);
                    if i < ca.len() && i < cb.len() {
                        diff_into(&ca[i], &cb[i], &q, out);
                    } else if i < ca.len() {
                        let content = summary_of(&ca[i]);
                        out.push(TreeDiff::OnlyInFirst { path: q, content });
                        assert(diff_values(out@) =~= before + seq![(0nat, path@.push(i), summary(va[i as int]), Seq::<char>::empty())]);
                    } else {
                        let content = summary_of(&cb[i]);
                        out.push(TreeDiff::OnlyInSecond { path: q, content });
                        assert(diff_values(out@) =~= before + seq![(1nat, path@.push(i), summary(vb[i as int]), Seq::<char>::empty())]);
                    }
                    i = i + 1;
                }
                assert(a@ == TreeValue::Node(la@, va));
                assert(b@ == TreeValue::Node(lb@, vb));
            },
            Tree::Leaf(_) => {
                let first = summary_of(a);
                let second = summary_of(b);
                out.push(TreeDiff::DifferentContent { path: path.clone(), first, second });
                assert(diff_values(out@) =~= start + diffs(a@, b@, path@));
            },
        },
        Tree::Leaf(x) => match b {
            Tree::Leaf(y) => {
                assert(a@ == TreeValue::Leaf(texts(x@)));
                assert(b@ == TreeValue::Leaf(texts(y@)));
                if !crate::tree::same_lines(x, y) {
                    let first = summary_of(a);
                    let second = summary_of(b);
                    out.push(TreeDiff::DifferentContent { path: path.clone(), first, second });
                }
                assert(diff_values(out@) =~= start + diffs(a@, b@, path@));
            },
            Tree::Node(_, _) => {
                let first = summary_of(a);
                let second = summary_of(b);
                out.push(TreeDiff::DifferentContent { path: path.clone(), first, second });
                assert(diff_values(out@) =~= start + diffs(a@, b@, path@));
            },
        },
    }
}

impl Tree {
    /// Whether this tree and `other` have the same shape.
    pub fn eq_structure(&self, other: &Tree) -> (r: bool)
        ensures
            r == same_shape(self@, other@),
        decreases self,
    {
        match self {
            Tree::Node(_, c1) => match other {
                Tree::Node(_, c2) => {
                    proof {
                        lemma_values_of(c1@);
                        lemma_values_of(c2@);
                    }
                    let ghost v1 = values_of(c1@);
                    let ghost v2 = values_of(c2@);
                    if c1.len() != c2.len() {
                        return false;
                    }
                    let mut i: usize = 0;
                    while i < c1.len()
                        invariant
                            *self is Node,
                            (*self)->Node_1 == *c1,
                            v1 == values_of(c1@),
                            v2 == values_of(c2@),
                            v1.len() == c1@.len(),
                            v2.len() == c2@.len(),
                            c1@.len() == c2@.len(),
                            forall|j: int| 0 <= j < v1.len() ==> #[trigger] v1[j] == c1@[j]@,
                            forall|j: int| 0 <= j < v2.len() ==> #[trigger] v2[j] == c2@[j]@,
                            same_shape_in(v1, v2, i as int),
                            i <= c1@.len(),
                            self@ == TreeValue::Node(self@->Node_0, v1),
                            other@ == TreeValue::Node(other@->Node_0, v2),
                        decreases c1@.len() - i,
                    {
                        proof {
                            assert(decreases_to!(*self => (*self)->Node_1));
                        }
                        if !c1[i].eq_structure(&c2[i]) {
                            proof {
                                lemma_shape_prefix(v1, v2, i + 1, v1.len() as int);
                            }
                            return false;
                        }
                        i = i + 1;
                    }
                    true
                },
                Tree::Leaf(_) => false,
            },
            Tree::Leaf(_) => match other {
                Tree::Leaf(_) => true,
                Tree::Node(_, _) => false,
            },
        }
    }

    /// The differences between this tree and `other`, in document order.
    pub fn diff(&self, other: &Tree) -> (r: Vec<TreeDiff>)
        ensures
            diff_values(r@) == diffs(self@, other@, Seq::empty()),
    {
        let mut out: Vec<TreeDiff> = Vec::new();
        let path: Vec<usize> = Vec::new();
        diff_into(self, other, &path, &mut out);
        assert(diff_values(out@) =~= diffs(self@, other@, Seq::empty()));
        out
    }

    /// Whether this tree equals `other` or one of the trees below it.
    pub fn is_subtree_of(&self, other: &Tree) -> (r: bool)
        ensures
            r == occurs_within(self@, other@),
        decreases other,
    {
        if *self == *other {
            return true;
        }
        match other {
            Tree::Node(_, children) => {
                proof {
                    lemma_values_of(children@);
                }
                let ghost ch = values_of(children@);
                let mut i: usize = 0;
                while i < children.len()
                    invariant
                        *other is Node,
                        (*other)->Node_1 == *children,
                        ch == values_of(children@),
                        ch.len() == children@.len(),
                        forall|j: int| 0 <= j < ch.len() ==> #[trigger] ch[j] == children@[j]@,
                        !occurs_within_in(self@, ch, i as int),
                        i <= children@.len(),
                        other@ == TreeValue::Node(other@->Node_0, ch),
                        self@ != other@,
                    decreases children@.len() - i,
                {
                    proof {
                        assert(decreases_to!(*other => (*other)->Node_1));
                    }
                    if self.is_subtree_of(&children[i]) {
                        proof {
                            lemma_within_prefix(self@, ch, i + 1, ch.len() as int);
                        }
                        return true;
                    }
                    i = i + 1;
                }
                false
            },
            Tree::Leaf(_) => false,
        }
    }
}

/// A failed pair stays failed in every longer prefix.
proof fn lemma_shape_prefix(ca: Seq<TreeValue>, cb: Seq<TreeValue>, i: int, k: int)
    requires
        0 < i <= k <= ca.len(),
        k <= cb.len(),
        !same_shape_in(ca, cb, i),
    ensures
        !same_shape_in(ca, cb, k),
    decreases k - i,
{
    if i < k {
        lemma_shape_prefix(ca, cb, i, k - 1);
    }
}

/// A found occurrence stays found in every longer prefix.
proof fn lemma_within_prefix(a: TreeValue, ch: Seq<TreeValue>, i: int, k: int)
    requires
        0 < i <= k <= ch.len(),
        occurs_within_in(a, ch, i),
    ensures
        occurs_within_in(a, ch, k),
    decreases k - i,
{
    if i < k {
        lemma_within_prefix(a, ch, i, k - 1);
    }
}

} // verus!

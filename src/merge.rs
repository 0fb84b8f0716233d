//! Merging two static trees.
use crate::text::same_text;
use crate::tree::{clone_trees, lemma_values_of, lemma_values_of_push, values_of, Tree, TreeValue};
use vstd::prelude::*;

verus! {

/// How two trees are merged.
pub enum MergeStrategy {
    /// The second tree replaces the first.
    Replace,
    /// The second tree's children follow the first's.
    Append,
    /// Children nodes with equal labels are merged, recursively.
    MergeByLabel,
}

/// Merging by appending: two nodes give the first's label over both lists
/// of children; two leaves give the second; otherwise the node is kept.
pub open spec fn appended(a: TreeValue, b: TreeValue) -> TreeValue {
    match (a, b) {
        (TreeValue::Node(la, ca), TreeValue::Node(_, cb)) => TreeValue::Node(la, ca + cb),
        (TreeValue::Leaf(_), TreeValue::Leaf(_)) => b,
        (TreeValue::Node(_, _), TreeValue::Leaf(_)) => a,
        (TreeValue::Leaf(_), TreeValue::Node(_, _)) => b,
    }
}

/// The first index from `j` on that is not in `used` and holds a node
/// labelled `label`.
pub open spec fn first_unused(cb: Seq<TreeValue>, label: Seq<char>, used: Set<int>, j: int) -> Option<int>
    decreases cb.len() - j,
{
    if j < 0 || j >= cb.len() {
        None
    } else if !used.contains(j) && cb[j] is Node && cb[j]->Node_0 == label {
        Some(j)
    } else {
        first_unused(cb, label, used, j + 1)
    }
}

/// The trees of `cb` from `j` on whose indexes are not in `used`, in order.
pub open spec fn leftovers(cb: Seq<TreeValue>, used: Set<int>, j: int) -> Seq<TreeValue>
    decreases cb.len() - j,
{
    if j < 0 || j >= cb.len() {
        Seq::empty()
    } else {
        (if used.contains(j) {
            Seq::empty()
        } else {
            seq![cb[j]]
        }) + leftovers(cb, used, j + 1)
    }
}

/// Merging by label: two nodes with equal labels keep that label; each
/// child node of the first is merged with the first unused child node of
/// the second that has its label, other children of the first are kept,
/// and the unused children of the second follow. Two leaves give the
/// second; anything else is merged by appending.
pub open spec fn merged_by_label(a: TreeValue, b: TreeValue) -> TreeValue
    decreases a, 0int,
{
    match (a, b) {
        (TreeValue::Node(la, ca), TreeValue::Node(lb, cb)) => if la == lb {
            TreeValue::Node(la, merged_children(ca, cb, 0, Set::empty()))
        } else {
            appended(a, b)
        },
        (TreeValue::Leaf(_), TreeValue::Leaf(_)) => b,
        _ => appended(a, b),
    }
}

/// The merged children from the `i`-th child of the first node on, the
/// children of the second whose indexes are in `used` being taken.
pub open spec fn merged_children(ca: Seq<TreeValue>, cb: Seq<TreeValue>, i: int, used: Set<int>) -> Seq<TreeValue>
    decreases ca, ca.len() - i,
{
    if i < 0 || i >= ca.len() {
        leftovers(cb, used, 0)
    } else {
        match ca[i] {
            TreeValue::Node(label, _) => match first_unused(cb, label, used, 0) {
                Some(j) => seq![merged_by_label(ca[i], cb[j])] + merged_children(
                    ca,
                    cb,
                    i + 1,
                    used.insert(j),
                ),
                None => seq![ca[i]] + merged_children(ca, cb, i + 1, used),
            },
            TreeValue::Leaf(_) => seq![ca[i]] + merged_children(ca, cb, i + 1, used),
        }
    }
}

/// The result of merging `a` and `b` with strategy `s`.
pub open spec fn merged(a: TreeValue, b: TreeValue, s: MergeStrategy) -> TreeValue {
    match s {
        MergeStrategy::Replace => b,
        MergeStrategy::Append => appended(a, b),
        MergeStrategy::MergeByLabel => merged_by_label(a, b),
    }
}

/// The set of indexes marked in `used`.
pub open spec fn marked(used: Seq<bool>) -> Set<int> {
    Set::new(|j: int| 0 <= j < used.len() && used[j])
}

fn merge_append(a: &Tree, b: &Tree) -> (r: Tree)
    ensures
        r@ == appended(a@, b@),
{
    match a {
        Tree::Node(la, ca) => match b {
            Tree::Node(_, cb) => {
                let mut out = clone_trees(ca);
                let mut i: usize = 0;
                while i < cb.len()
                    invariant
                        i <= cb@.len(),
                        values_of(out@) == values_of(ca@) + values_of(cb@.take(i as int)),
                    decreases cb@.len() - i,
                {
                    let c = cb[i].clone();
                    proof {
                        lemma_values_of_push(out@, c);
                        lemma_values_of_push(cb@.take(i as int), cb@[i as int]);
                        assert(cb@.take(i + 1) =~= cb@.take(i as int).push(cb@[i as int]));
                    }
                    out.push(c);
                    i = i + 1;
                }
                assert(cb@.take(i as int) =~= cb@);
                Tree::Node(la.clone(), out)
            },
            Tree::Leaf(_) => a.clone(),
        },
        Tree::Leaf(_) => b.clone(),
    }
}

/// The first index from `j` on not marked in `used` that holds a node labelled `label`.
fn find_unused(cb: &Vec<Tree>, label: &String, used: &Vec<bool>) -> (r: Option<usize>)
    requires
        used@.len() == cb@.len(),
    ensures
        match r {
            Some(j) => first_unused(values_of(cb@), label@, marked(used@), 0) == Some(j as int),
            None => first_unused(values_of(cb@), label@, marked(used@), 0) is None,
        },
        r is Some ==> r->Some_0 < cb@.len(),
{
    proof {
        lemma_values_of(cb@);
    }
    let mut j: usize = 0;
    while j < cb.len()
        invariant
            used@.len() == cb@.len(),
            values_of(cb@).len() == cb@.len(),
            forall|k: int| 0 <= k < cb@.len() ==> #[trigger] values_of(cb@)[k] == cb@[k]@,
            j <= cb@.len(),
            first_unused(values_of(cb@), label@, marked(used@), 0) == first_unused(
                values_of(cb@),
                label@,
                marked(used@),
                j as int,
            ),
        decreases cb@.len() - j,
    {
        if !used[j] {
            match &cb[j] {
                Tree::Node(l, _) => {
                    if same_text(l.as_str(), label.as_str()) {
                        return Some(j);
                    }
                },
                Tree::Leaf(_) => {},
            }
        }
        j = j + 1;
    }
    None
}

fn merge_by_label(a: &Tree, b: &Tree) -> (r: Tree)
    ensures
        r@ == merged_by_label(a@, b@),
    decreases a,
{
    match a {
        Tree::Node(la, ca) => match b {
            Tree::Node(lb, cb) => {
                if *la != *lb {
                    return merge_append(a, b);
                }
                proof {
                    lemma_values_of(ca@);
                    lemma_values_of(cb@);
                }
                let ghost va = values_of(ca@);
                let ghost vb = values_of(cb@);
                let mut used: Vec<bool> = Vec::new();
                let mut k: usize = 0;
                while k < cb.len()
                    invariant
                        k <= cb@.len(),
                        used@.len() == k,
                        forall|m: int| 0 <= m < k ==> !#[trigger] used@[m],
                    decreases cb@.len() - k,
                {
                    used.push(false);
                    k = k + 1;
                }
                assert(marked(used@) =~= Set::<int>::empty());
                let ghost total = merged_children(va, vb, 0, Set::empty());
                let mut out: Vec<Tree> = Vec::new();
                let mut i: usize = 0;
                while i < ca.len()
                    invariant
                        *a is Node,
                        (*a)->Node_1 == *ca,
                        va == values_of(ca@),
                        vb == values_of(cb@),
                        va.len() == ca@.len(),
                        vb.len() == cb@.len(),
                        forall|j: int| 0 <= j < va.len() ==> #[trigger] va[j] == ca@[j]@,
                        forall|j: int| 0 <= j < vb.len() ==> #[trigger] vb[j] == cb@[j]@,
                        used@.len() == cb@.len(),
                        i <= ca@.len(),
                        values_of(out@) + merged_children(va, vb, i as int, marked(used@)) == total,
                    decreases ca@.len() - i,
                {
                    proof {
                        assert(decreases_to!(*a => (*a)->Node_1));
                    }
                    let ghost before = values_of(out@);
                    let ghost u = marked(used@);
                    let x: Tree;
                    match &ca[i] {
                        Tree::Node(cl, _) => {
                            match find_unused(cb, cl, &used) {
                                Some(j) => {
                                    x = merge_by_label(&ca[i], &cb[j]);
                                    used.set(j, true);
                                    assert(marked(used@) =~= u.insert(j as int));
                                },
                                None => {
                                    x = ca[i].clone();
                                },
                            }
                        },
                        Tree::Leaf(_) => {
                            x = ca[i].clone();
                        },
                    }
                    proof {
                        lemma_values_of_push(out@, x);
                        assert(merged_children(va, vb, i as int, u) == seq![x@] + merged_children(
                            va,
                            vb,
                            i + 1,
                            marked(used@),
                        ));
                        assert(before.push(x@) + merged_children(va, vb, i + 1, marked(used@))
                            =~= before + (seq![x@] + merged_children(va, vb, i + 1, marked(used@))));
                    }
                    out.push(x);
                    i = i + 1;
                }
                let ghost u = marked(used@);
                let mut j: usize = 0;
                while j < cb.len()
                    invariant
                        vb == values_of(cb@),
                        vb.len() == cb@.len(),
                        forall|m: int| 0 <= m < vb.len() ==> #[trigger] vb[m] == cb@[m]@,
                        used@.len() == cb@.len(),
                        u == marked(used@),
                        j <= cb@.len(),
                        values_of(out@) + leftovers(vb, u, j as int) == total,
                    decreases cb@.len() - j,
                {
                    let ghost before = values_of(out@);
                    if !used[j] {
                        let c = cb[j].clone();
                        proof {
                            lemma_values_of_push(out@, c);
                            assert(!u.contains(j as int));
                            assert(before.push(c@) + leftovers(vb, u, j + 1) =~= before + leftovers(vb, u, j as int));
                        }
                        out.push(c);
                    } else {
                        assert(u.contains(j as int));
                        assert(before + leftovers(vb, u, j + 1) =~= before + leftovers(vb, u, j as int));
                    }
                    j = j + 1;
                }
                assert(values_of(out@) =~= total);
                assert(a@ == TreeValue::Node(la@, va));
                assert(b@ == TreeValue::Node(lb@, vb));
                Tree::Node(la.clone(), out)
            },
            Tree::Leaf(_) => merge_append(a, b),
        },
        Tree::Leaf(_) => match b {
            Tree::Leaf(_) => b.clone(),
            Tree::Node(_, _) => merge_append(a, b),
        },
    }
}

impl Tree {
    /// This tree merged with `other` by `strategy`.
    pub fn merge(&self, other: Tree, strategy: MergeStrategy) -> (r: Tree)
        ensures
            r@ == merged(self@, other@, strategy),
    {
        match strategy {
            MergeStrategy::Replace => other,
            MergeStrategy::Append => merge_append(self, &other),
            MergeStrategy::MergeByLabel => merge_by_label(self, &other),
        }
    }
}

} // verus!

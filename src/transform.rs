//! Rewriting the labels and lines of a static tree, and keeping or dropping
//! items by a predicate.
use crate::tree::{lemma_values_of, lemma_values_of_push, texts, values_of, Tree, TreeValue};
use vstd::prelude::*;

verus! {

/// Whether `f`, called on some text `a`, may give `b`.
pub open spec fn gives<F: Fn(&str) -> String>(f: F, a: Seq<char>, b: Seq<char>) -> bool {
    exists|x: &str, y: String| #[trigger] f.ensures((x,), y) && x@ == a && y@ == b
}

/// Whether `b` is `a` with each node label `l` replaced by what `f` gives on `l`.
pub open spec fn relabelled<F: Fn(&str) -> String>(a: TreeValue, b: TreeValue, f: F) -> bool
    decreases a, 0int,
{
    match (a, b) {
        (TreeValue::Node(la, ca), TreeValue::Node(lb, cb)) => gives(f, la, lb) && ca.len()
            == cb.len() && relabelled_in(ca, cb, f, ca.len() as int),
        (TreeValue::Leaf(x), TreeValue::Leaf(y)) => x == y,
        _ => false,
    }
}

/// `relabelled` for the first `k` pairs of `ca` and `cb`.
pub open spec fn relabelled_in<F: Fn(&str) -> String>(ca: Seq<TreeValue>, cb: Seq<TreeValue>, f: F, k: int) -> bool
    decreases ca, k,
{
    if k <= 0 || k > ca.len() || k > cb.len() {
        true
    } else {
        relabelled_in(ca, cb, f, k - 1) && relabelled(ca[k - 1], cb[k - 1], f)
    }
}

/// Whether `b` is `a` with each leaf line `l` replaced by what `f` gives on `l`.
pub open spec fn relined<F: Fn(&str) -> String>(a: TreeValue, b: TreeValue, f: F) -> bool
    decreases a, 0int,
{
    match (a, b) {
        (TreeValue::Node(la, ca), TreeValue::Node(lb, cb)) => la == lb && ca.len() == cb.len()
            && relined_in(ca, cb, f, ca.len() as int),
        (TreeValue::Leaf(x), TreeValue::Leaf(y)) => x.len() == y.len() && forall|i: int|
            0 <= i < x.len() ==> gives(f, #[trigger] x[i], y[i]),
        _ => false,
    }
}

/// `relined` for the first `k` pairs of `ca` and `cb`.
pub open spec fn relined_in<F: Fn(&str) -> String>(ca: Seq<TreeValue>, cb: Seq<TreeValue>, f: F, k: int) -> bool
    decreases ca, k,
{
    if k <= 0 || k > ca.len() || k > cb.len() {
        true
    } else {
        relined_in(ca, cb, f, k - 1) && relined(ca[k - 1], cb[k - 1], f)
    }
}

fn map_nodes_impl<F: Fn(&str) -> String>(tree: &Tree, f: &F) -> (r: Tree)
    requires
        forall|s: &str| f.requires((s,)),
    ensures
        relabelled(tree@, r@, *f),
    decreases tree,
{
    match tree {
        Tree::Node(label, children) => {
            let ls = label.as_str();
            let new_label = f(ls);
            assert(gives(*f, label@, new_label@));
            proof {
                lemma_values_of(children@);
            }
            let ghost ca = values_of(children@);
            let mut out: Vec<Tree> = Vec::new();
            let mut i: usize = 0;
            while i < children.len()
                invariant
                    forall|s: &str| f.requires((s,)),
                    *tree is Node,
                    (*tree)->Node_1 == *children,
                    ca == values_of(children@),
                    ca.len() == children@.len(),
                    forall|j: int| 0 <= j < ca.len() ==> #[trigger] ca[j] == children@[j]@,
                    i <= children@.len(),
                    values_of(out@).len() == i,
                    relabelled_in(ca, values_of(out@), *f, i as int),
                decreases children@.len() - i,
            {
                proof {
                    assert(decreases_to!(*tree => (*tree)->Node_1));
                }
                let c = map_nodes_impl(&children[i], f);
                let ghost before = values_of(out@);
                proof {
                    lemma_values_of_push(out@, c);
                    lemma_relabelled_in_extend(ca, before, c@, *f, i as int);
                }
                out.push(c);
                i = i + 1;
            }
            let r = Tree::Node(new_label, out);
            assert(tree@ == TreeValue::Node(label@, ca));
            r
        },
        Tree::Leaf(lines) => Tree::Leaf(lines.clone()),
    }
}

proof fn lemma_relabelled_in_extend<F: Fn(&str) -> String>(
    ca: Seq<TreeValue>,
    cb: Seq<TreeValue>,
    x: TreeValue,
    f: F,
    k: int,
)
    requires
        0 <= k < ca.len(),
        cb.len() == k,
        relabelled_in(ca, cb, f, k),
        relabelled(ca[k], x, f),
    ensures
        relabelled_in(ca, cb.push(x), f, k + 1),
{
    lemma_relabelled_in_same(ca, cb, cb.push(x), f, k);
}

proof fn lemma_relabelled_in_same<F: Fn(&str) -> String>(
    ca: Seq<TreeValue>,
    cb: Seq<TreeValue>,
    cc: Seq<TreeValue>,
    f: F,
    k: int,
)
    requires
        0 <= k <= cb.len(),
        k <= cc.len(),
        k <= ca.len(),
        forall|j: int| 0 <= j < k ==> cb[j] == cc[j],
        relabelled_in(ca, cb, f, k),
    ensures
        relabelled_in(ca, cc, f, k),
    decreases k,
{
    if k > 0 {
        lemma_relabelled_in_same(ca, cb, cc, f, k - 1);
    }
}

proof fn lemma_relined_in_same<F: Fn(&str) -> String>(
    ca: Seq<TreeValue>,
    cb: Seq<TreeValue>,
    cc: Seq<TreeValue>,
    f: F,
    k: int,
)
    requires
        0 <= k <= cb.len(),
        k <= cc.len(),
        k <= ca.len(),
        forall|j: int| 0 <= j < k ==> cb[j] == cc[j],
        relined_in(ca, cb, f, k),
    ensures
        relined_in(ca, cc, f, k),
    decreases k,
{
    if k > 0 {
        lemma_relined_in_same(ca, cb, cc, f, k - 1);
    }
}

fn map_leaves_impl<F: Fn(&str) -> String>(tree: &Tree, f: &F) -> (r: Tree)
    requires
        forall|s: &str| f.requires((s,)),
    ensures
        relined(tree@, r@, *f),
    decreases tree,
{
    match tree {
        Tree::Node(label, children) => {
            proof {
                lemma_values_of(children@);
            }
            let ghost ca = values_of(children@);
            let mut out: Vec<Tree> = Vec::new();
            let mut i: usize = 0;
            while i < children.len()
                invariant
                    forall|s: &str| f.requires((s,)),
                    *tree is Node,
                    (*tree)->Node_1 == *children,
                    ca == values_of(children@),
                    ca.len() == children@.len(),
                    forall|j: int| 0 <= j < ca.len() ==> #[trigger] ca[j] == children@[j]@,
                    i <= children@.len(),
                    values_of(out@).len() == i,
                    relined_in(ca, values_of(out@), *f, i as int),
                decreases children@.len() - i,
            {
                proof {
                    assert(decreases_to!(*tree => (*tree)->Node_1));
                }
                let c = map_leaves_impl(&children[i], f);
                let ghost before = values_of(out@);
                proof {
                    lemma_values_of_push(out@, c);
                    lemma_relined_in_same(ca, before, before.push(c@), *f, i as int);
                }
                out.push(c);
                i = i + 1;
            }
            assert(tree@ == TreeValue::Node(label@, ca));
            Tree::Node(label.clone(), out)
        },
        Tree::Leaf(lines) => {
            let ghost x = texts(lines@);
            let mut out: Vec<String> = Vec::new();
            let mut i: usize = 0;
            while i < lines.len()
                invariant
                    forall|s: &str| f.requires((s,)),
                    x == texts(lines@),
                    i <= lines@.len(),
                    out@.len() == i,
                    forall|j: int| 0 <= j < i ==> gives(*f, #[trigger] x[j], texts(out@)[j]),
                decreases lines@.len() - i,
            {
                let ls = lines[i].as_str();
                let nl = f(ls);
                assert(gives(*f, x[i as int], nl@));
                out.push(nl);
                assert(texts(out@)[i as int] == nl@);
                i = i + 1;
            }
            assert(tree@ == TreeValue::Leaf(x));
            Tree::Leaf(out)
        },
    }
}

/// The values present in `rs`, in order.
pub open spec fn somes(rs: Seq<Option<TreeValue>>) -> Seq<TreeValue>
    decreases rs.len(),
{
    if rs.len() == 0 {
        Seq::empty()
    } else {
        somes(rs.drop_last()) + match rs.last() {
            Some(v) => seq![v],
            None => Seq::<TreeValue>::empty(),
        }
    }
}

/// What is kept of `t` when keeping the items on which `p` gives `want`: a
/// leaf is kept where `p` gives `want` on it; a node is kept where `p` gives
/// `want` on it or some child is kept, with the kept children alone.
pub open spec fn kept<P: Fn(&Tree) -> bool>(t: Tree, r: Option<TreeValue>, p: P, want: bool) -> bool
    decreases t,
{
    match t {
        Tree::Node(label, ch) => exists|b: bool, rs: Seq<Option<TreeValue>>|
            #[trigger] p.ensures((&t,), b) && rs.len() == ch@.len() && (forall|i: int|
                0 <= i < rs.len() ==> kept(ch@[i], #[trigger] rs[i], p, want)) && r == (if b
                == want || #[trigger] somes(rs).len() > 0 {
                Some(TreeValue::Node(label@, somes(rs)))
            } else {
                None
            }),
        Tree::Leaf(_) => exists|b: bool|
            #[trigger] p.ensures((&t,), b) && r == (if b == want {
                Some(t@)
            } else {
                None
            }),
    }
}

fn filter_impl<P: Fn(&Tree) -> bool>(tree: &Tree, pred: &P, want: bool) -> (r: Option<Tree>)
    requires
        forall|t: &Tree| pred.requires((t,)),
    ensures
        kept(*tree, match r {
            Some(x) => Some(x@),
            None => None,
        }, *pred, want),
    decreases tree,
{
    match tree {
        Tree::Node(label, children) => {
            let mut out: Vec<Tree> = Vec::new();
            let ghost mut rs: Seq<Option<TreeValue>> = Seq::empty();
            let mut i: usize = 0;
            while i < children.len()
                invariant
                    forall|t: &Tree| pred.requires((t,)),
                    *tree is Node,
                    (*tree)->Node_1 == *children,
                    i <= children@.len(),
                    rs.len() == i,
                    forall|j: int| 0 <= j < i ==> kept(children@[j], #[trigger] rs[j], *pred, want),
                    values_of(out@) == somes(rs),
                decreases children@.len() - i,
            {
                proof {
                    assert(decreases_to!(*tree => (*tree)->Node_1));
                }
                let c = filter_impl(&children[i], pred, want);
                let ghost rv = match c {
                    Some(ref x) => Some(x@),
                    None => None,
                };
                match c {
                    Some(x) => {
                        proof {
                            lemma_values_of_push(out@, x);
                        }
                        out.push(x);
                    },
                    None => {},
                }
                proof {
                    let old_rs = rs;
                    rs = rs.push(rv);
                    assert(rs.drop_last() =~= old_rs);
                }
                i = i + 1;
            }
            let b = pred(tree);
            proof {
                lemma_values_of(out@);
                assert(pred.ensures((tree,), b));
            }
            if b == want || out.len() > 0 {
                let r = Tree::Node(label.clone(), out);
                Some(r)
            } else {
                None
            }
        },
        Tree::Leaf(_) => {
            let b = pred(tree);
            if b == want {
                Some(tree.clone())
            } else {
                None
            }
        },
    }
}

impl Tree {
    /// This tree with each node label `l` replaced by `f(l)`.
    pub fn map_nodes<F: Fn(&str) -> String>(&self, f: F) -> (r: Tree)
        requires
            forall|s: &str| f.requires((s,)),
        ensures
            relabelled(self@, r@, f),
    {
        map_nodes_impl(self, &f)
    }

    /// This tree with each leaf line `l` replaced by `f(l)`.
    pub fn map_leaves<F: Fn(&str) -> String>(&self, f: F) -> (r: Tree)
        requires
            forall|s: &str| f.requires((s,)),
        ensures
            relined(self@, r@, f),
    {
        map_leaves_impl(self, &f)
    }

    /// The items on which `predicate` holds, with the nodes above them;
    /// `None` where nothing is kept.
    pub fn filter<P: Fn(&Tree) -> bool>(&self, predicate: P) -> (r: Option<Tree>)
        requires
            forall|t: &Tree| predicate.requires((t,)),
        ensures
            kept(*self, match r {
                Some(x) => Some(x@),
                None => None,
            }, predicate, true),
    {
        filter_impl(self, &predicate, true)
    }

    /// The items on which `predicate` fails, with the nodes above them;
    /// `None` where nothing is kept.
    pub fn prune<P: Fn(&Tree) -> bool>(&self, predicate: P) -> (r: Option<Tree>)
        requires
            forall|t: &Tree| predicate.requires((t,)),
        ensures
            kept(*self, match r {
                Some(x) => Some(x@),
                None => None,
            }, predicate, false),
    {
        filter_impl(self, &predicate, false)
    }
}

} // verus!

//! Sorting the children of every node of a static tree, stably.
use crate::stats::depth_of;
use crate::text::chars_of;
use crate::tree::{lemma_values_of, lemma_values_of_insert, lemma_values_of_push, texts, values_of, Tree, TreeValue};
use vstd::prelude::*;

verus! {

/// What the children are ordered by.
pub enum SortKey {
    /// A node's label or a leaf's first line, by character codes.
    Label,
    /// The depth, shallowest first, or deepest first.
    Depth { deepest_first: bool },
}

/// The text a tree is ordered by: a node's label, a leaf's first line.
pub open spec fn sort_text(t: TreeValue) -> Seq<char> {
    match t {
        TreeValue::Node(label, _) => label,
        TreeValue::Leaf(lines) => if lines.len() > 0 {
            lines[0]
        } else {
            Seq::empty()
        },
    }
}

/// Whether `a` comes after `b` in the order of character codes.
pub open spec fn text_after(a: Seq<char>, b: Seq<char>) -> bool
    decreases a.len(),
{
    if a.len() == 0 {
        false
    } else if b.len() == 0 {
        true
    } else if a[0] != b[0] {
        (a[0] as u32) > (b[0] as u32)
    } else {
        text_after(a.drop_first(), b.drop_first())
    }
}

/// Whether `a` must stand after `b` under `key`.
pub open spec fn must_follow(a: TreeValue, b: TreeValue, key: SortKey) -> bool {
    match key {
        SortKey::Label => text_after(sort_text(a), sort_text(b)),
        SortKey::Depth { deepest_first } => if deepest_first {
            depth_of(a) < depth_of(b)
        } else {
            depth_of(a) > depth_of(b)
        },
    }
}

/// Where `x` goes in `s`, searching from `j`: before the first tree that
/// must follow it, or at the end.
pub open spec fn insert_at(s: Seq<TreeValue>, x: TreeValue, key: SortKey, j: int) -> int
    decreases s.len() - j,
{
    if j < 0 || j >= s.len() {
        s.len() as int
    } else if must_follow(s[j], x, key) {
        j
    } else {
        insert_at(s, x, key, j + 1)
    }
}

/// The stable sort of `s` under `key`: each tree in turn goes before the
/// first tree already placed that must follow it.
pub open spec fn sorted_seq(s: Seq<TreeValue>, key: SortKey) -> Seq<TreeValue>
    decreases s.len(),
{
    if s.len() == 0 {
        Seq::empty()
    } else {
        let t = sorted_seq(s.drop_last(), key);
        t.insert(insert_at(t, s.last(), key, 0), s.last())
    }
}

/// `t` with the children of every node sorted under `key`.
pub open spec fn sorted_tree(t: TreeValue, key: SortKey) -> TreeValue
    decreases t, 0int,
{
    match t {
        TreeValue::Node(label, ch) => TreeValue::Node(
            label,
            sorted_seq(sorted_each(ch, key, ch.len() as int), key),
        ),
        TreeValue::Leaf(_) => t,
    }
}

/// The first `k` trees of `ch`, each with its children sorted under `key`.
pub open spec fn sorted_each(ch: Seq<TreeValue>, key: SortKey, k: int) -> Seq<TreeValue>
    decreases ch, k,
{
    if k <= 0 || k > ch.len() {
        Seq::empty()
    } else {
        sorted_each(ch, key, k - 1).push(sorted_tree(ch[k - 1], key))
    }
}

/// Whether text `a` comes after text `b` by character codes.
fn text_after_exec(a: &Vec<char>, b: &Vec<char>) -> (r: bool)
    ensures
        r == text_after(a@, b@),
{
    let mut i: usize = 0;
    assert(a@.skip(0) =~= a@);
    assert(b@.skip(0) =~= b@);
    while i < a.len() && i < b.len() && a[i] == b[i]
        invariant
            i <= a@.len(),
            i <= b@.len(),
            text_after(a@, b@) == text_after(a@.skip(i as int), b@.skip(i as int)),
        decreases a@.len() - i,
    {
        assert(a@.skip(i as int).drop_first() =~= a@.skip(i + 1));
        assert(b@.skip(i as int).drop_first() =~= b@.skip(i + 1));
        i = i + 1;
    }
    if i >= a.len() {
        return false;
    }
    if i >= b.len() {
        return true;
    }
    assert(a@.skip(i as int)[0] == a@[i as int]);
    assert(b@.skip(i as int)[0] == b@[i as int]);
    (a[i] as u32) > (b[i] as u32)
}

/// The text `t` is ordered by.
fn sort_text_of(t: &Tree) -> (r: Vec<char>)
    ensures
        r@ == sort_text(t@),
{
    match t {
        Tree::Node(label, _) => chars_of(label.as_str()),
        Tree::Leaf(lines) => {
            assert(t@ == TreeValue::Leaf(texts(lines@)));
            if lines.len() > 0 {
                chars_of(lines[0].as_str())
            } else {
                Vec::new()
            }
        },
    }
}

/// Whether `a` must stand after `b` under `key`.
fn must_follow_exec(a: &Tree, b: &Tree, key: &SortKey) -> (r: bool)
    requires
        depth_of(a@) <= usize::MAX,
        depth_of(b@) <= usize::MAX,
    ensures
        r == must_follow(a@, b@, *key),
{
    match key {
        SortKey::Label => {
            let x = sort_text_of(a);
            let y = sort_text_of(b);
            text_after_exec(&x, &y)
        },
        SortKey::Depth { deepest_first } => {
            let da = a.depth();
            let db = b.depth();
            if *deepest_first {
                da < db
            } else {
                da > db
            }
        },
    }
}

/// Sorting keeps the length, and every tree of the result is one of the input.
proof fn lemma_sorted_members(s: Seq<TreeValue>, key: SortKey)
    ensures
        sorted_seq(s, key).len() == s.len(),
        forall|i: int|
            0 <= i < s.len() ==> exists|j: int| 0 <= j < s.len() && #[trigger] sorted_seq(s, key)[i] == s[j],
    decreases s.len(),
{
    if s.len() > 0 {
        let t = sorted_seq(s.drop_last(), key);
        lemma_sorted_members(s.drop_last(), key);
        lemma_insert_at_bound(t, s.last(), key, 0);
        let p = insert_at(t, s.last(), key, 0);
        let r = t.insert(p, s.last());
        assert forall|i: int| 0 <= i < s.len() implies exists|j: int|
            0 <= j < s.len() && #[trigger] sorted_seq(s, key)[i] == s[j] by {
            if i < p {
                assert(r[i] == t[i]);
                let j = choose|j: int| 0 <= j < s.len() - 1 && t[i] == s.drop_last()[j];
                assert(s[j] == s.drop_last()[j]);
            } else if i == p {
                assert(r[i] == s[s.len() - 1]);
            } else {
                assert(r[i] == t[i - 1]);
                let j = choose|j: int| 0 <= j < s.len() - 1 && t[i - 1] == s.drop_last()[j];
                assert(s[j] == s.drop_last()[j]);
            }
        }
    }
}

proof fn lemma_insert_at_bound(s: Seq<TreeValue>, x: TreeValue, key: SortKey, j: int)
    requires
        0 <= j,
    ensures
        0 <= insert_at(s, x, key, j) <= s.len(),
    decreases s.len() - j,
{
    if j < s.len() && !must_follow(s[j], x, key) {
        lemma_insert_at_bound(s, x, key, j + 1);
    }
}

/// `sorted_each` keeps the length and sorts each tree.
proof fn lemma_sorted_each(ch: Seq<TreeValue>, key: SortKey, k: int)
    requires
        0 <= k <= ch.len(),
    ensures
        sorted_each(ch, key, k).len() == k,
        forall|i: int| 0 <= i < k ==> #[trigger] sorted_each(ch, key, k)[i] == sorted_tree(ch[i], key),
    decreases k,
{
    if k > 0 {
        lemma_sorted_each(ch, key, k - 1);
    }
}

/// A bound on every depth is a bound on the greatest one.
proof fn lemma_deepest_bound(s: Seq<TreeValue>, m: nat, k: int)
    requires
        0 <= k <= s.len(),
        forall|i: int| 0 <= i < s.len() ==> depth_of(#[trigger] s[i]) <= m,
    ensures
        crate::stats::deepest_in(s, k) <= m,
    decreases k,
{
    if k > 0 {
        lemma_deepest_bound(s, m, k - 1);
    }
}

/// Sorting children never makes a tree deeper.
proof fn lemma_sorted_depth(t: TreeValue, key: SortKey)
    ensures
        depth_of(sorted_tree(t, key)) <= depth_of(t),
    decreases t, 0int,
{
    match t {
        TreeValue::Node(label, ch) => {
            let n = ch.len() as int;
            let e = sorted_each(ch, key, n);
            lemma_sorted_each(ch, key, n);
            lemma_sorted_members(e, key);
            let r = sorted_seq(e, key);
            if n > 0 {
                let m = crate::stats::deepest_in(ch, n);
                assert forall|i: int| 0 <= i < r.len() implies depth_of(#[trigger] r[i]) <= m by {
                    let j = choose|j: int| 0 <= j < e.len() && r[i] == e[j];
                    lemma_sorted_depth_child(ch, key, j);
                }
                lemma_deepest_bound(r, m, n);
            }
        },
        TreeValue::Leaf(_) => {},
    }
}

proof fn lemma_sorted_depth_child(ch: Seq<TreeValue>, key: SortKey, j: int)
    requires
        0 <= j < ch.len(),
    ensures
        depth_of(sorted_tree(ch[j], key)) <= crate::stats::deepest_in(ch, ch.len() as int),
    decreases ch, 0int,
{
    lemma_sorted_depth(ch[j], key);
    crate::stats::lemma_child_depth(ch, j);
}

/// The trees of `v`, sorted stably under `key`.
fn sort_vec(v: Vec<Tree>, key: &SortKey) -> (r: Vec<Tree>)
    requires
        forall|i: int| 0 <= i < v@.len() ==> depth_of(#[trigger] v@[i]@) <= usize::MAX,
    ensures
        values_of(r@) == sorted_seq(values_of(v@), *key),
{
    let mut out: Vec<Tree> = Vec::new();
    let mut i: usize = 0;
    proof {
        lemma_values_of(v@);
        assert(values_of(v@.take(0)) =~= Seq::<TreeValue>::empty());
    }
    while i < v.len()
        invariant
            i <= v@.len(),
            forall|m: int| 0 <= m < v@.len() ==> depth_of(#[trigger] v@[m]@) <= usize::MAX,
            values_of(out@) == sorted_seq(values_of(v@.take(i as int)), *key),
            forall|m: int| 0 <= m < out@.len() ==> depth_of(#[trigger] out@[m]@) <= usize::MAX,
        decreases v@.len() - i,
    {
        let x = v[i].clone();
        proof {
            lemma_values_of(out@);
        }
        let ghost t = values_of(out@);
        let mut j: usize = 0;
        while j < out.len() && !must_follow_exec(&out[j], &x, key)
            invariant
                j <= out@.len(),
                t == values_of(out@),
                t.len() == out@.len(),
                forall|m: int| 0 <= m < out@.len() ==> #[trigger] t[m] == out@[m]@,
                forall|m: int| 0 <= m < out@.len() ==> depth_of(#[trigger] out@[m]@) <= usize::MAX,
                depth_of(x@) <= usize::MAX,
                insert_at(t, x@, *key, 0) == insert_at(t, x@, *key, j as int),
            decreases out@.len() - j,
        {
            j = j + 1;
        }
        proof {
            lemma_values_of_insert(out@, j as int, x);
            lemma_values_of_push(v@.take(i as int), v@[i as int]);
            assert(v@.take(i + 1) =~= v@.take(i as int).push(v@[i as int]));
            assert(values_of(v@.take(i + 1)).drop_last() =~= values_of(v@.take(i as int)));
        }
        out.insert(j, x);
        i = i + 1;
    }
    assert(v@.take(i as int) =~= v@);
    out
}

/// A copy of `t` with the children of every node sorted under `key`.
fn sorted_copy(t: &Tree, key: &SortKey) -> (r: Tree)
    requires
        depth_of(t@) <= usize::MAX,
    ensures
        r@ == sorted_tree(t@, *key),
    decreases t,
{
    match t {
        Tree::Node(label, children) => {
            proof {
                lemma_values_of(children@);
            }
            let ghost ch = values_of(children@);
            assert(t@ == TreeValue::Node(label@, ch));
            let mut each: Vec<Tree> = Vec::new();
            let mut i: usize = 0;
            while i < children.len()
                invariant
                    *t is Node,
                    (*t)->Node_1 == *children,
                    ch == values_of(children@),
                    ch.len() == children@.len(),
                    forall|j: int| 0 <= j < ch.len() ==> #[trigger] ch[j] == children@[j]@,
                    t@ == TreeValue::Node(label@, ch),
                    depth_of(t@) <= usize::MAX,
                    i <= children@.len(),
                    values_of(each@) == sorted_each(ch, *key, i as int),
                    forall|m: int| 0 <= m < each@.len() ==> depth_of(#[trigger] each@[m]@) <= usize::MAX,
                decreases children@.len() - i,
            {
                proof {
                    assert(decreases_to!(*t => (*t)->Node_1));
                    crate::stats::lemma_child_depth(ch, i as int);
                    lemma_sorted_depth(ch[i as int], *key);
                }
                let c = sorted_copy(&children[i], key);
                proof {
                    lemma_values_of_push(each@, c);
                    lemma_values_of(each@.push(c));
                }
                each.push(c);
                i = i + 1;
            }
            let sorted = sort_vec(each, key);
            Tree::Node(label.clone(), sorted)
        },
        Tree::Leaf(_) => t.clone(),
    }
}

impl Tree {
    /// Sorts the children of every node by label (a leaf by its first line),
    /// by character codes, keeping the order of equal ones.
    pub fn sort_by_label(&mut self)
        requires
            depth_of(old(self)@) <= usize::MAX,
        ensures
            final(self)@ == sorted_tree(old(self)@, SortKey::Label),
    {
        let r = sorted_copy(self, &SortKey::Label);
        *self = r;
    }

    /// Sorts the children of every node by depth, deepest first where
    /// `deepest_first`, else shallowest first, keeping the order of equal ones.
    pub fn sort_by_depth(&mut self, deepest_first: bool)
        requires
            depth_of(old(self)@) <= usize::MAX,
        ensures
            final(self)@ == sorted_tree(old(self)@, SortKey::Depth { deepest_first }),
    {
        let r = sorted_copy(self, &SortKey::Depth { deepest_first });
        *self = r;
    }
}

/// Whether `b` holds what `a` holds at its top: the same label over as
/// many children, or the same lines.
pub open spec fn same_top(a: TreeValue, b: TreeValue) -> bool {
    match (a, b) {
        (TreeValue::Node(la, ca), TreeValue::Node(lb, cb)) => la == lb && ca.len() == cb.len(),
        (TreeValue::Leaf(x), TreeValue::Leaf(y)) => x == y,
        _ => false,
    }
}

/// Sorts `v` with `compare`, keeping the order of trees it finds equal:
/// each tree in turn goes before the first tree already placed that
/// `compare` puts after it.
fn sort_vec_by<F: Fn(&Tree, &Tree) -> core::cmp::Ordering>(v: Vec<Tree>, compare: &F) -> (r: Vec<Tree>)
    requires
        forall|a: &Tree, b: &Tree| compare.requires((a, b)),
    ensures
        r@.len() == v@.len(),
{
    let mut out: Vec<Tree> = Vec::new();
    let mut i: usize = 0;
    while i < v.len()
        invariant
            forall|a: &Tree, b: &Tree| compare.requires((a, b)),
            i <= v@.len(),
            out@.len() == i,
        decreases v@.len() - i,
    {
        let x = v[i].clone();
        let mut j: usize = 0;
        while j < out.len()
            invariant
                forall|a: &Tree, b: &Tree| compare.requires((a, b)),
                j <= out@.len(),
            decreases out@.len() - j,
        {
            match compare(&out[j], &x) {
                core::cmp::Ordering::Greater => {
                    break;
                },
                _ => {},
            }
            j = j + 1;
        }
        out.insert(j, x);
        i = i + 1;
    }
    out
}

impl Tree {
    /// Sorts the children of every node with `compare`, keeping the order
    /// of children it finds equal; every node keeps its label and its number
    /// of children, every leaf its lines.
    pub fn sort_children<F: Fn(&Tree, &Tree) -> core::cmp::Ordering>(&mut self, compare: &F)
        requires
            forall|a: &Tree, b: &Tree| compare.requires((a, b)),
        ensures
            same_top(old(self)@, final(self)@),
    {
        let r = sorted_copy_by(self, compare);
        *self = r;
    }
}

/// A copy of `t` with the children of every node sorted with `compare`.
fn sorted_copy_by<F: Fn(&Tree, &Tree) -> core::cmp::Ordering>(t: &Tree, compare: &F) -> (r: Tree)
    requires
        forall|a: &Tree, b: &Tree| compare.requires((a, b)),
    ensures
        same_top(t@, r@),
    decreases t,
{
    match t {
        Tree::Node(label, children) => {
            let mut each: Vec<Tree> = Vec::new();
            let mut i: usize = 0;
            while i < children.len()
                invariant
                    forall|a: &Tree, b: &Tree| compare.requires((a, b)),
                    *t is Node,
                    (*t)->Node_1 == *children,
                    i <= children@.len(),
                    each@.len() == i,
                decreases children@.len() - i,
            {
                proof {
                    assert(decreases_to!(*t => (*t)->Node_1));
                }
                let c = sorted_copy_by(&children[i], compare);
                each.push(c);
                i = i + 1;
            }
            let sorted = sort_vec_by(each, compare);
            let r = Tree::Node(label.clone(), sorted);
            proof {
                lemma_values_of(children@);
                lemma_values_of(sorted@);
            }
            r
        },
        Tree::Leaf(_) => t.clone(),
    }
}

} // verus!

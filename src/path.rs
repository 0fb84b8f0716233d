//! Reaching items of a static tree by paths of child indexes.
use crate::tree::{lemma_values_of, lemma_values_of_update, texts, values_of, Tree, TreeValue};
use vstd::prelude::*;

verus! {

/// The item reached from the top of `t` by following the child indexes of
/// `p`; `None` where an index is out of range or leads below a leaf.
pub open spec fn subtree_at(t: TreeValue, p: Seq<usize>) -> Option<TreeValue>
    decreases p.len(),
{
    if p.len() == 0 {
        Some(t)
    } else {
        match t {
            TreeValue::Node(_, ch) => if p[0] < ch.len() {
                subtree_at(ch[p[0] as int], p.drop_first())
            } else {
                None
            },
            TreeValue::Leaf(_) => None,
        }
    }
}

/// One item of a flattened tree: where it stands, its label or first line,
/// and whether it is a node.
pub struct FlattenedEntry {
    pub path: Vec<usize>,
    pub content: String,
    pub is_node: bool,
}

/// The value of a flattened entry.
pub open spec fn entry_value(e: FlattenedEntry) -> (Seq<usize>, Seq<char>, bool) {
    (e.path@, e.content@, e.is_node)
}

/// The entries of `t`, whose top stands at `p`, in document order.
pub open spec fn flat(t: TreeValue, p: Seq<usize>) -> Seq<(Seq<usize>, Seq<char>, bool)>
    decreases t, 0int,
{
    match t {
        TreeValue::Node(label, ch) => seq![(p, label, true)] + flat_in(ch, p, ch.len() as int),
        TreeValue::Leaf(lines) => seq![
            (p, if lines.len() > 0 {
                lines[0]
            } else {
                Seq::empty()
            }, false),
        ],
    }
}

/// The entries of the first `k` children `ch` of a node at `p`.
pub open spec fn flat_in(ch: Seq<TreeValue>, p: Seq<usize>, k: int) -> Seq<(Seq<usize>, Seq<char>, bool)>
    decreases ch, k,
{
    if k <= 0 || k > ch.len() {
        Seq::empty()
    } else {
        flat_in(ch, p, k - 1) + flat(ch[k - 1], p.push((k - 1) as usize))
    }
}

/// The path to the first item, in document order, equal to `target`.
pub open spec fn path_of(t: TreeValue, target: TreeValue) -> Option<Seq<usize>>
    decreases t, 0int,
{
    if t == target {
        Some(Seq::empty())
    } else {
        match t {
            TreeValue::Node(_, ch) => path_of_in(ch, target, 0),
            TreeValue::Leaf(_) => None,
        }
    }
}

/// The path to the first item equal to `target` within the trees of `ch`
/// from `i` on, led by the index of the child it lies in.
pub open spec fn path_of_in(ch: Seq<TreeValue>, target: TreeValue, i: int) -> Option<Seq<usize>>
    decreases ch, ch.len() - i,
{
    if i < 0 || i >= ch.len() {
        None
    } else {
        match path_of(ch[i], target) {
            Some(rest) => Some(seq![i as usize] + rest),
            None => path_of_in(ch, target, i + 1),
        }
    }
}

/// The entries' values.
pub open spec fn entry_values(s: Seq<FlattenedEntry>) -> Seq<(Seq<usize>, Seq<char>, bool)> {
    s.map_values(|e: FlattenedEntry| entry_value(e))
}

/// Appends the entries of `t`, whose top stands at `path`, to `out`.
fn flatten_into(t: &Tree, path: &Vec<usize>, out: &mut Vec<FlattenedEntry>)
    ensures
        entry_values(final(out)@) == entry_values(old(out)@) + flat(t@, path@),
    decreases t,
{
    let ghost start = entry_values(out@);
    match t {
        Tree::Node(label, children) => {
            let e = FlattenedEntry { path: path.clone(), content: label.clone(), is_node: true };
            out.push(e);
            assert(entry_values(out@) =~= start + seq![(path@, label@, true)]);
            proof {
                lemma_values_of(children@);
            }
            let ghost ch = values_of(children@);
            let ghost mid = entry_values(out@);
            let mut i: usize = 0;
            while i < children.len()
                invariant
                    *t is Node,
                    (*t)->Node_1 == *children,
                    ch == values_of(children@),
                    ch.len() == children@.len(),
                    forall|j: int| 0 <= j < ch.len() ==> #[trigger] ch[j] == children@[j]@,
                    entry_values(out@) == mid + flat_in(ch, path@, i as int),
                    i <= children@.len(),
                decreases children@.len() - i,
            {
                proof {
                    assert(decreases_to!(*t => (*t)->Node_1));
                }
                let mut p = path.clone();
                p.push(i);
                flatten_into(&children[i], &p, out);
                i = i + 1;
            }
            assert(t@ == TreeValue::Node(label@, ch));
        },
        Tree::Leaf(lines) => {
            let content = if lines.len() > 0 {
                lines[0].clone()
            } else {
                String::new()
            };
            let e = FlattenedEntry { path: path.clone(), content, is_node: false };
            out.push(e);
            assert(t@ == TreeValue::Leaf(texts(lines@)));
            assert(entry_values(out@) =~= start + flat(t@, path@));
        },
    }
}

impl Tree {
    /// Every item with its path, label or first line, and kind, in
    /// document order.
    pub fn flatten(&self) -> (r: Vec<FlattenedEntry>)
        ensures
            entry_values(r@) == flat(self@, Seq::empty()),
    {
        let mut out: Vec<FlattenedEntry> = Vec::new();
        let path: Vec<usize> = Vec::new();
        flatten_into(self, &path, &mut out);
        assert(entry_values(out@) =~= flat(self@, Seq::empty()));
        out
    }

    /// The item reached by following the child indexes of `path`; `None`
    /// where an index is out of range or leads below a leaf.
    pub fn get_by_path(&self, path: &[usize]) -> (r: Option<&Tree>)
        ensures
            match r {
                Some(t) => subtree_at(self@, path@) == Some(t@),
                None => subtree_at(self@, path@) is None,
            },
    {
        let mut cur: &Tree = self;
        let mut i: usize = 0;
        assert(path@.skip(0) =~= path@);
        while i < path.len()
            invariant
                i <= path@.len(),
                subtree_at(self@, path@) == subtree_at(cur@, path@.skip(i as int)),
            decreases path@.len() - i,
        {
            assert(path@.skip(i as int).drop_first() =~= path@.skip(i + 1));
            match cur {
                Tree::Node(_, children) => {
                    proof {
                        lemma_values_of(children@);
                    }
                    if path[i] < children.len() {
                        cur = &children[path[i]];
                    } else {
                        return None;
                    }
                },
                Tree::Leaf(_) => {
                    return None;
                },
            }
            i = i + 1;
        }
        Some(cur)
    }

    /// The path to the first item, in document order, equal to `target`;
    /// this tree itself has the empty path.
    pub fn get_path(&self, target: &Tree) -> (r: Option<Vec<usize>>)
        ensures
            match r {
                Some(v) => path_of(self@, target@) == Some(v@),
                None => path_of(self@, target@) is None,
            },
        decreases self,
    {
        if *self == *target {
            return Some(Vec::new());
        }
        match self {
            Tree::Node(_, children) => {
                proof {
                    lemma_values_of(children@);
                }
                let ghost ch = values_of(children@);
                let mut i: usize = 0;
                while i < children.len()
                    invariant
                        *self is Node,
                        (*self)->Node_1 == *children,
                        ch == values_of(children@),
                        ch.len() == children@.len(),
                        forall|j: int| 0 <= j < ch.len() ==> #[trigger] ch[j] == children@[j]@,
                        path_of(self@, target@) == path_of_in(ch, target@, i as int),
                        i <= children@.len(),
                    decreases children@.len() - i,
                {
                    proof {
                        assert(decreases_to!(*self => (*self)->Node_1));
                    }
                    match children[i].get_path(target) {
                        Some(mut p) => {
                            p.insert(0, i);
                            return Some(p);
                        },
                        None => {},
                    }
                    i = i + 1;
                }
                None
            },
            Tree::Leaf(_) => None,
        }
    }

    /// The item reached by following `path` from index `i` on, to be
    /// changed in place.
    fn by_path_mut(&mut self, path: &[usize], i: usize) -> (r: Option<&mut Tree>)
        requires
            i <= path@.len(),
        ensures
            r is Some <==> subtree_at(old(self)@, path@.skip(i as int)) is Some,
            r is None ==> final(self)@ == old(self)@,
            r is Some ==> {
                &&& subtree_at(old(self)@, path@.skip(i as int)) == Some((*r->Some_0)@)
                &&& final(self)@ == replaced_at(
                    old(self)@,
                    path@.skip(i as int),
                    (*final(r->Some_0))@,
                )
            },
        decreases path@.len() - i,
    {
        if i >= path.len() {
            return Some(self);
        }
        assert(path@.skip(i as int).drop_first() =~= path@.skip(i + 1));
        let k = path[i];
        let ghost old_self = *self;
        if !self.is_node() {
            return None;
        }
        proof {
            lemma_values_of(self->Node_1@);
            let oc = self->Node_1@;
            assert(self@->Node_1.len() == oc.len());
            assert(path@.skip(i as int)[0] == k);
            if k < oc.len() {
                assert(values_of(oc).update(k as int, oc[k as int]@) =~= values_of(oc));
            }
        }
        if k >= self.child_count().unwrap() {
            return None;
        }
        match self.children_mut() {
            Some(children) => {
                let child = child_mut(children, k);
                child.by_path_mut(path, i + 1)
            },
            None => None,
        }
    }

    /// The item reached by following the child indexes of `path`, to be
    /// changed in place; the tree is then this one with that item replaced.
    pub fn get_by_path_mut(&mut self, path: &[usize]) -> (r: Option<&mut Tree>)
        ensures
            r is Some <==> subtree_at(old(self)@, path@) is Some,
            r is None ==> final(self)@ == old(self)@,
            r is Some ==> {
                &&& subtree_at(old(self)@, path@) == Some((*r->Some_0)@)
                &&& final(self)@ == replaced_at(old(self)@, path@, (*final(r->Some_0))@)
            },
    {
        assert(path@.skip(0) =~= path@);
        self.by_path_mut(path, 0)
    }
}

/// The child at `k`, to be changed in place.
fn child_mut(v: &mut Vec<Tree>, k: usize) -> (r: &mut Tree)
    requires
        k < old(v)@.len(),
    ensures
        *r == old(v)@[k as int],
        final(v)@ == old(v)@.update(k as int, *final(r)),
        values_of(final(v)@) == values_of(old(v)@).update(k as int, (*final(r))@),
        values_of(old(v)@)[k as int] == (*r)@,
        values_of(old(v)@).len() == old(v)@.len(),
{
    proof {
        let oc = v@;
        lemma_values_of(oc);
        assert forall|t: Tree| #[trigger] values_of(oc.update(k as int, t)) == values_of(oc).update(
            k as int,
            t@,
        ) by {
            lemma_values_of_update(oc, k as int, t);
        }
    }
    &mut v[k]
}

/// `t` with the item at path `p` replaced by `x`; unchanged where `p` leads nowhere.
pub open spec fn replaced_at(t: TreeValue, p: Seq<usize>, x: TreeValue) -> TreeValue
    decreases p.len(),
{
    if p.len() == 0 {
        x
    } else {
        match t {
            TreeValue::Node(l, ch) => if p[0] < ch.len() {
                TreeValue::Node(l, ch.update(p[0] as int, replaced_at(ch[p[0] as int], p.drop_first(), x)))
            } else {
                t
            },
            TreeValue::Leaf(_) => t,
        }
    }
}

} // verus!

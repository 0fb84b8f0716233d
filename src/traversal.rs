//! Walks over a static tree: pre-order, post-order, level order, and the
//! nodes or the leaves alone.
use crate::stats::depth_of;
use crate::tree::{lemma_values_of, values_of, Tree, TreeValue};
use vstd::prelude::*;

verus! {

/// Which items a walk yields, and when.
pub enum Visit {
    /// Every item, before its children.
    Pre,
    /// Every item, after its children.
    Post,
    /// The nodes alone, each before its children.
    NodesOnly,
    /// The leaves alone, in document order.
    LeavesOnly,
}

/// Whether a walk of kind `v` yields `t` before its children.
pub open spec fn yields_before(v: Visit, t: TreeValue) -> bool {
    match v {
        Visit::Pre => true,
        Visit::Post => false,
        Visit::NodesOnly => t is Node,
        Visit::LeavesOnly => t is Leaf,
    }
}

/// The items that a walk of kind `v` yields from `t`, in order.
pub open spec fn walk(t: TreeValue, v: Visit) -> Seq<TreeValue>
    decreases t, 0int,
{
    let before: Seq<TreeValue> = if yields_before(v, t) {
        seq![t]
    } else {
        Seq::empty()
    };
    let after: Seq<TreeValue> = if v is Post {
        seq![t]
    } else {
        Seq::empty()
    };
    match t {
        TreeValue::Node(_, ch) => before + walk_in(ch, v, ch.len() as int) + after,
        TreeValue::Leaf(_) => before + after,
    }
}

/// The items that a walk yields from the first `k` trees of `ch`.
pub open spec fn walk_in(ch: Seq<TreeValue>, v: Visit, k: int) -> Seq<TreeValue>
    decreases ch, k,
{
    if k <= 0 || k > ch.len() {
        Seq::empty()
    } else {
        walk_in(ch, v, k - 1) + walk(ch[k - 1], v)
    }
}

/// The items `d` levels below the top of `t`, in document order.
pub open spec fn at_depth(t: TreeValue, d: nat) -> Seq<TreeValue>
    decreases t, 0int,
{
    if d == 0 {
        seq![t]
    } else {
        match t {
            TreeValue::Node(_, ch) => at_depth_in(ch, (d - 1) as nat, ch.len() as int),
            TreeValue::Leaf(_) => Seq::empty(),
        }
    }
}

/// The items `d` levels below the tops of the first `k` trees of `ch`.
pub open spec fn at_depth_in(ch: Seq<TreeValue>, d: nat, k: int) -> Seq<TreeValue>
    decreases ch, k,
{
    if k <= 0 || k > ch.len() {
        Seq::empty()
    } else {
        at_depth_in(ch, d, k - 1) + at_depth(ch[k - 1], d)
    }
}

/// The items of the first `k` levels of `t`, level by level.
pub open spec fn levels(t: TreeValue, k: nat) -> Seq<TreeValue>
    decreases k,
{
    if k == 0 {
        Seq::empty()
    } else {
        levels(t, (k - 1) as nat) + at_depth(t, (k - 1) as nat)
    }
}

/// Every item of `t` in level order: the top, then the items one level
/// below it, and so on, each level in document order.
pub open spec fn level_order_of(t: TreeValue) -> Seq<TreeValue> {
    levels(t, depth_of(t) + 1)
}

/// The views of a sequence of tree references.
pub open spec fn views(s: Seq<&Tree>) -> Seq<TreeValue> {
    s.map_values(|x: &Tree| x@)
}

/// Appends what a walk of kind `v` yields from `t` to `out`.
fn collect_walk<'a>(t: &'a Tree, v: &Visit, out: &mut Vec<&'a Tree>)
    ensures
        views(final(out)@) == views(old(out)@) + walk(t@, *v),
    decreases t,
{
    let ghost start = views(out@);
    let before = match v {
        Visit::Pre => true,
        Visit::Post => false,
        Visit::NodesOnly => t.is_node(),
        Visit::LeavesOnly => t.is_leaf(),
    };
    if before {
        out.push(t);
    }
    let ghost b: Seq<TreeValue> = if yields_before(*v, t@) {
        seq![t@]
    } else {
        Seq::empty()
    };
    assert(views(out@) =~= start + b);
    match t {
        Tree::Node(_, children) => {
            proof {
                lemma_values_of(children@);
            }
            let ghost ch = values_of(children@);
            let mut i: usize = 0;
            while i < children.len()
                invariant
                    *t is Node,
                    (*t)->Node_1 == *children,
                    ch == values_of(children@),
                    ch.len() == children@.len(),
                    forall|j: int| 0 <= j < ch.len() ==> #[trigger] ch[j] == children@[j]@,
                    views(out@) == start + b + walk_in(ch, *v, i as int),
                    i <= children@.len(),
                decreases children@.len() - i,
            {
                proof {
                    assert(decreases_to!(*t => (*t)->Node_1));
                }
                collect_walk(&children[i], v, out);
                i = i + 1;
            }
        },
        Tree::Leaf(_) => {},
    }
    let ghost mid = views(out@);
    match v {
        Visit::Post => {
            out.push(t);
        },
        _ => {},
    }
    assert(views(out@) =~= mid + (if *v is Post {
        seq![t@]
    } else {
        Seq::<TreeValue>::empty()
    }));
}

/// Appends the items `d` levels below the top of `t` to `out`.
fn collect_at_depth<'a>(t: &'a Tree, d: usize, out: &mut Vec<&'a Tree>)
    ensures
        views(final(out)@) == views(old(out)@) + at_depth(t@, d as nat),
    decreases t,
{
    if d == 0 {
        out.push(t);
        assert(views(out@) =~= views(old(out)@) + seq![t@]);
        return;
    }
    match t {
        Tree::Node(_, children) => {
            proof {
                lemma_values_of(children@);
            }
            let ghost start = views(out@);
            let ghost ch = values_of(children@);
            let mut i: usize = 0;
            while i < children.len()
                invariant
                    d > 0,
                    *t is Node,
                    (*t)->Node_1 == *children,
                    ch == values_of(children@),
                    ch.len() == children@.len(),
                    forall|j: int| 0 <= j < ch.len() ==> #[trigger] ch[j] == children@[j]@,
                    views(out@) == start + at_depth_in(ch, (d - 1) as nat, i as int),
                    i <= children@.len(),
                decreases children@.len() - i,
            {
                proof {
                    assert(decreases_to!(*t => (*t)->Node_1));
                }
                collect_at_depth(&children[i], d - 1, out);
                i = i + 1;
            }
        },
        Tree::Leaf(_) => {
            assert(views(out@) =~= views(old(out)@) + at_depth(t@, d as nat));
        },
    }
}

/// What a walk of kind `v` yields from `t`.
fn walk_all<'a>(t: &'a Tree, v: Visit) -> (r: Vec<&'a Tree>)
    ensures
        views(r@) == walk(t@, v),
{
    let mut out: Vec<&'a Tree> = Vec::new();
    collect_walk(t, &v, &mut out);
    assert(views(out@) =~= walk(t@, v));
    out
}

/// Every item of `t` in level order.
fn level_walk<'a>(t: &'a Tree) -> (r: Vec<&'a Tree>)
    requires
        depth_of(t@) < usize::MAX,
    ensures
        views(r@) == level_order_of(t@),
{
    let depth = t.depth();
    let mut out: Vec<&'a Tree> = Vec::new();
    let mut d: usize = 0;
    assert(views(out@) =~= levels(t@, 0));
    while d <= depth
        invariant
            depth == depth_of(t@),
            depth < usize::MAX,
            d <= depth + 1,
            views(out@) == levels(t@, d as nat),
        decreases depth + 1 - d,
    {
        collect_at_depth(t, d, &mut out);
        d = d + 1;
    }
    out
}

/// Takes the item at `*next`, if any, and moves past it.
fn take_next<'a>(items: &Vec<&'a Tree>, next: &mut usize) -> (r: Option<&'a Tree>)
    requires
        *old(next) <= items@.len(),
    ensures
        *final(next) <= items@.len(),
        *old(next) == items@.len() ==> r is None && *final(next) == *old(next),
        *old(next) < items@.len() ==> r is Some && r->Some_0@ == views(items@)[*old(next) as int]
            && *final(next) == *old(next) + 1,
{
    if *next < items.len() {
        let t = items[*next];
        *next = *next + 1;
        Some(t)
    } else {
        None
    }
}

/// The items from `next` on.
fn rest_of<'a>(items: &Vec<&'a Tree>, next: usize) -> (r: Vec<&'a Tree>)
    requires
        next <= items@.len(),
    ensures
        views(r@) == views(items@).skip(next as int),
{
    let mut out: Vec<&'a Tree> = Vec::new();
    let mut i = next;
    while i < items.len()
        invariant
            next <= i <= items@.len(),
            views(out@) =~= views(items@).subrange(next as int, i as int),
        decreases items@.len() - i,
    {
        let ghost prev = out@;
        out.push(items[i]);
        assert(views(out@) =~= views(prev).push(items@[i as int]@));
        assert(views(out@) =~= views(items@).subrange(next as int, i + 1));
        i = i + 1;
    }
    out
}

/// Every item of a tree, each before its children.
pub struct PreOrder<'a> {
    items: Vec<&'a Tree>,
    next: usize,
}

impl<'a> PreOrder<'a> {
    /// The position stays within the items.
    pub closed spec fn wf(&self) -> bool {
        self.next <= self.items@.len()
    }

    /// The items still to come.
    pub closed spec fn remaining(&self) -> Seq<TreeValue> {
        views(self.items@).skip(self.next as int)
    }

    /// Every item of `tree`, each before its children.
    pub fn new(tree: &'a Tree) -> (r: Self)
        ensures
            r.wf(),
            r.remaining() == walk(tree@, Visit::Pre),
    {
        let items = walk_all(tree, Visit::Pre);
        let r = PreOrder { items, next: 0 };
        assert(views(r.items@).skip(0) =~= views(r.items@));
        r
    }

    /// The next item, if any is left.
    pub fn next(&mut self) -> (r: Option<&'a Tree>)
        requires
            old(self).wf(),
        ensures
            final(self).wf(),
            old(self).remaining().len() == 0 ==> r is None && final(self).remaining()
                == old(self).remaining(),
            old(self).remaining().len() > 0 ==> r is Some && r->Some_0@ == old(self).remaining()[0]
                && final(self).remaining() == old(self).remaining().drop_first(),
    {
        let ghost before = views(self.items@);
        let r = take_next(&self.items, &mut self.next);
        assert(views(self.items@).skip(self.next as int) =~= if r is Some {
            before.skip(old(self).next as int).drop_first()
        } else {
            before.skip(old(self).next as int)
        });
        r
    }

    /// The items still to come, all at once.
    pub fn collect(self) -> (r: Vec<&'a Tree>)
        requires
            self.wf(),
        ensures
            views(r@) == self.remaining(),
    {
        rest_of(&self.items, self.next)
    }
}

/// Every item of a tree, each after its children.
pub struct PostOrder<'a> {
    items: Vec<&'a Tree>,
    next: usize,
}

impl<'a> PostOrder<'a> {
    /// The position stays within the items.
    pub closed spec fn wf(&self) -> bool {
        self.next <= self.items@.len()
    }

    /// The items still to come.
    pub closed spec fn remaining(&self) -> Seq<TreeValue> {
        views(self.items@).skip(self.next as int)
    }

    /// Every item of `tree`, each after its children.
    pub fn new(tree: &'a Tree) -> (r: Self)
        ensures
            r.wf(),
            r.remaining() == walk(tree@, Visit::Post),
    {
        let items = walk_all(tree, Visit::Post);
        let r = PostOrder { items, next: 0 };
        assert(views(r.items@).skip(0) =~= views(r.items@));
        r
    }

    /// The next item, if any is left.
    pub fn next(&mut self) -> (r: Option<&'a Tree>)
        requires
            old(self).wf(),
        ensures
            final(self).wf(),
            old(self).remaining().len() == 0 ==> r is None && final(self).remaining()
                == old(self).remaining(),
            old(self).remaining().len() > 0 ==> r is Some && r->Some_0@ == old(self).remaining()[0]
                && final(self).remaining() == old(self).remaining().drop_first(),
    {
        let ghost before = views(self.items@);
        let r = take_next(&self.items, &mut self.next);
        assert(views(self.items@).skip(self.next as int) =~= if r is Some {
            before.skip(old(self).next as int).drop_first()
        } else {
            before.skip(old(self).next as int)
        });
        r
    }

    /// The items still to come, all at once.
    pub fn collect(self) -> (r: Vec<&'a Tree>)
        requires
            self.wf(),
        ensures
            views(r@) == self.remaining(),
    {
        rest_of(&self.items, self.next)
    }
}

/// The nodes of a tree in document order.
pub struct Nodes<'a> {
    items: Vec<&'a Tree>,
    next: usize,
}

impl<'a> Nodes<'a> {
    /// The position stays within the items.
    pub closed spec fn wf(&self) -> bool {
        self.next <= self.items@.len()
    }

    /// The items still to come.
    pub closed spec fn remaining(&self) -> Seq<TreeValue> {
        views(self.items@).skip(self.next as int)
    }

    /// The nodes of `tree` in document order.
    pub fn new(tree: &'a Tree) -> (r: Self)
        ensures
            r.wf(),
            r.remaining() == walk(tree@, Visit::NodesOnly),
    {
        let items = walk_all(tree, Visit::NodesOnly);
        let r = Nodes { items, next: 0 };
        assert(views(r.items@).skip(0) =~= views(r.items@));
        r
    }

    /// The next item, if any is left.
    pub fn next(&mut self) -> (r: Option<&'a Tree>)
        requires
            old(self).wf(),
        ensures
            final(self).wf(),
            old(self).remaining().len() == 0 ==> r is None && final(self).remaining()
                == old(self).remaining(),
            old(self).remaining().len() > 0 ==> r is Some && r->Some_0@ == old(self).remaining()[0]
                && final(self).remaining() == old(self).remaining().drop_first(),
    {
        let ghost before = views(self.items@);
        let r = take_next(&self.items, &mut self.next);
        assert(views(self.items@).skip(self.next as int) =~= if r is Some {
            before.skip(old(self).next as int).drop_first()
        } else {
            before.skip(old(self).next as int)
        });
        r
    }

    /// The items still to come, all at once.
    pub fn collect(self) -> (r: Vec<&'a Tree>)
        requires
            self.wf(),
        ensures
            views(r@) == self.remaining(),
    {
        rest_of(&self.items, self.next)
    }
}

/// The leaves of a tree in document order.
pub struct Leaves<'a> {
    items: Vec<&'a Tree>,
    next: usize,
}

impl<'a> Leaves<'a> {
    /// The position stays within the items.
    pub closed spec fn wf(&self) -> bool {
        self.next <= self.items@.len()
    }

    /// The items still to come.
    pub closed spec fn remaining(&self) -> Seq<TreeValue> {
        views(self.items@).skip(self.next as int)
    }

    /// The leaves of `tree` in document order.
    pub fn new(tree: &'a Tree) -> (r: Self)
        ensures
            r.wf(),
            r.remaining() == walk(tree@, Visit::LeavesOnly),
    {
        let items = walk_all(tree, Visit::LeavesOnly);
        let r = Leaves { items, next: 0 };
        assert(views(r.items@).skip(0) =~= views(r.items@));
        r
    }

    /// The next item, if any is left.
    pub fn next(&mut self) -> (r: Option<&'a Tree>)
        requires
            old(self).wf(),
        ensures
            final(self).wf(),
            old(self).remaining().len() == 0 ==> r is None && final(self).remaining()
                == old(self).remaining(),
            old(self).remaining().len() > 0 ==> r is Some && r->Some_0@ == old(self).remaining()[0]
                && final(self).remaining() == old(self).remaining().drop_first(),
    {
        let ghost before = views(self.items@);
        let r = take_next(&self.items, &mut self.next);
        assert(views(self.items@).skip(self.next as int) =~= if r is Some {
            before.skip(old(self).next as int).drop_first()
        } else {
            before.skip(old(self).next as int)
        });
        r
    }

    /// The items still to come, all at once.
    pub fn collect(self) -> (r: Vec<&'a Tree>)
        requires
            self.wf(),
        ensures
            views(r@) == self.remaining(),
    {
        rest_of(&self.items, self.next)
    }
}

/// Every item of a tree, level by level.
pub struct LevelOrder<'a> {
    items: Vec<&'a Tree>,
    next: usize,
}

impl<'a> LevelOrder<'a> {
    /// The position stays within the items.
    pub closed spec fn wf(&self) -> bool {
        self.next <= self.items@.len()
    }

    /// The items still to come.
    pub closed spec fn remaining(&self) -> Seq<TreeValue> {
        views(self.items@).skip(self.next as int)
    }

    /// Every item of `tree`, level by level.
    pub fn new(tree: &'a Tree) -> (r: Self)
        requires
            depth_of(tree@) < usize::MAX,
        ensures
            r.wf(),
            r.remaining() == level_order_of(tree@),
    {
        let items = level_walk(tree);
        let r = LevelOrder { items, next: 0 };
        assert(views(r.items@).skip(0) =~= views(r.items@));
        r
    }

    /// The next item, if any is left.
    pub fn next(&mut self) -> (r: Option<&'a Tree>)
        requires
            old(self).wf(),
        ensures
            final(self).wf(),
            old(self).remaining().len() == 0 ==> r is None && final(self).remaining()
                == old(self).remaining(),
            old(self).remaining().len() > 0 ==> r is Some && r->Some_0@ == old(self).remaining()[0]
                && final(self).remaining() == old(self).remaining().drop_first(),
    {
        let ghost before = views(self.items@);
        let r = take_next(&self.items, &mut self.next);
        assert(views(self.items@).skip(self.next as int) =~= if r is Some {
            before.skip(old(self).next as int).drop_first()
        } else {
            before.skip(old(self).next as int)
        });
        r
    }

    /// The items still to come, all at once.
    pub fn collect(self) -> (r: Vec<&'a Tree>)
        requires
            self.wf(),
        ensures
            views(r@) == self.remaining(),
    {
        rest_of(&self.items, self.next)
    }
}

impl Tree {
    /// Every item of this tree, each before its children.
    pub fn pre_order(&self) -> (r: PreOrder<'_>)
        ensures
            r.wf(),
            r.remaining() == walk(self@, Visit::Pre),
    {
        PreOrder::new(self)
    }

    /// Every item of this tree, each after its children.
    pub fn post_order(&self) -> (r: PostOrder<'_>)
        ensures
            r.wf(),
            r.remaining() == walk(self@, Visit::Post),
    {
        PostOrder::new(self)
    }

    /// Every item of this tree, level by level.
    pub fn level_order(&self) -> (r: LevelOrder<'_>)
        requires
            depth_of(self@) < usize::MAX,
        ensures
            r.wf(),
            r.remaining() == level_order_of(self@),
    {
        LevelOrder::new(self)
    }

    /// The nodes of this tree in document order.
    pub fn nodes(&self) -> (r: Nodes<'_>)
        ensures
            r.wf(),
            r.remaining() == walk(self@, Visit::NodesOnly),
    {
        Nodes::new(self)
    }

    /// The leaves of this tree in document order.
    pub fn leaves(&self) -> (r: Leaves<'_>)
        ensures
            r.wf(),
            r.remaining() == walk(self@, Visit::LeavesOnly),
    {
        Leaves::new(self)
    }
}

} // verus!

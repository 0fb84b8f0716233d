//! The incremental tree model: items are added one at a time under a parent
//! given by identifier, in any order, and the model answers at any moment
//! where an item stands in document order and which prefix it is drawn with.
use crate::level::LevelPath;
use crate::prefix::{compute_prefix, prefix_text};
use crate::style::{is_unicode, StyleConfig, TreeStyle};
use crate::tree::{lemma_values_of, lemma_values_of_push, tree_value, values_of, Tree, TreeValue};
use vstd::prelude::*;

verus! {

/// Whether `a` comes before `b` in lexicographic order from position `i` on,
/// a proper prefix counting as smaller.
pub open spec fn lex_from(a: Seq<usize>, b: Seq<usize>, i: int) -> bool
    decreases a.len() - i,
{
    if i < 0 || i >= b.len() {
        false
    } else if i >= a.len() {
        true
    } else if a[i] != b[i] {
        a[i] < b[i]
    } else {
        lex_from(a, b, i + 1)
    }
}

/// Lexicographic order on index paths: the document (depth-first) order of
/// the items that the paths lead to.
pub open spec fn lex_lt(a: Seq<usize>, b: Seq<usize>) -> bool {
    lex_from(a, b, 0)
}

/// A parent given by identifier that names no node of the model.
#[derive(Debug)]
pub struct InvalidParent;

/// Items identified by consecutive integers from 0, each a node or a leaf,
/// linked to their parents; the style draws every prefix.
pub struct IncrementalTree {
    items: Vec<Tree>,
    parents: Vec<Option<usize>>,
    children: Vec<Vec<usize>>,
    slots: Vec<usize>,
    root_ids: Vec<usize>,
    style: StyleConfig,
}

impl IncrementalTree {
    /// The number of items.
    pub closed spec fn size(&self) -> nat {
        self.items@.len()
    }

    /// What an item holds: a node's label with no children, or a leaf's lines.
    pub closed spec fn item(&self, id: int) -> TreeValue {
        tree_value(self.items@[id])
    }

    /// The parent of an item; `None` for a root.
    pub closed spec fn parent_of(&self, id: int) -> Option<usize> {
        self.parents@[id]
    }

    /// The children of an item, in the order they were added.
    pub closed spec fn children_of(&self, id: int) -> Seq<usize> {
        self.children@[id]@
    }

    /// The roots, in the order they were added.
    pub closed spec fn roots(&self) -> Seq<usize> {
        self.root_ids@
    }

    /// The style that draws the prefixes.
    pub closed spec fn style_spec(&self) -> StyleConfig {
        self.style
    }

    /// The place of an item among its siblings, or among the roots.
    pub closed spec fn slot(&self, id: int) -> usize {
        self.slots@[id]
    }

    /// The links agree with each other, every parent is a node with a smaller
    /// identifier, and no identifier is missing.
    pub closed spec fn wf(&self) -> bool {
        let n = self.items@.len();
        &&& self.parents@.len() == n
        &&& self.children@.len() == n
        &&& self.slots@.len() == n
        &&& forall|i: int|
            0 <= i < n ==> match #[trigger] self.parents@[i] {
                Some(p) => {
                    &&& p < i
                    &&& self.items@[p as int] is Node
                    &&& self.slots@[i] < self.children@[p as int]@.len()
                    &&& self.children@[p as int]@[self.slots@[i] as int] == i
                },
                None => {
                    &&& self.slots@[i] < self.root_ids@.len()
                    &&& self.root_ids@[self.slots@[i] as int] == i
                },
            }
        &&& forall|p: int, k: int|
            0 <= p < n && 0 <= k < self.children@[p]@.len() ==> {
                let c = #[trigger] self.children@[p]@[k];
                &&& p < c < n
                &&& self.parents@[c as int] == Some(p as usize)
                &&& self.slots@[c as int] == k
            }
        &&& forall|k: int|
            0 <= k < self.root_ids@.len() ==> {
                let r = #[trigger] self.root_ids@[k];
                &&& r < n
                &&& self.parents@[r as int] is None
                &&& self.slots@[r as int] == k
            }
        &&& forall|i: int| 0 <= i < n ==> match #[trigger] self.items@[i] {
            Tree::Node(_, c) => c@.len() == 0,
            Tree::Leaf(_) => true,
        }
    }

    /// Whether `id` names an item that is a node, and so can take children.
    pub open spec fn is_node_id(&self, id: int) -> bool {
        0 <= id < self.size() && self.item(id) is Node
    }

    /// The index path of an item: its place among the roots, then its place
    /// among the children at each level down to it.
    pub open spec fn index_path(&self, id: int) -> Seq<usize>
        decreases id,
    {
        if 0 <= id < self.size() {
            match self.parent_of(id) {
                None => seq![self.slot(id)],
                Some(p) => if p < id {
                    self.index_path(p as int).push(self.slot(id))
                } else {
                    Seq::empty()
                },
            }
        } else {
            Seq::empty()
        }
    }

    /// Whether an item is the last child of its parent, as the model stands.
    pub open spec fn is_last_child(&self, id: int) -> bool {
        match self.parent_of(id) {
            Some(p) => self.slot(id) == self.children_of(p as int).len() - 1,
            None => false,
        }
    }

    /// The level path of an item: one flag per level below the root, whether
    /// the item on that level is the last child of its parent.
    pub open spec fn level_path(&self, id: int) -> Seq<bool>
        decreases id,
    {
        if 0 <= id < self.size() {
            match self.parent_of(id) {
                None => Seq::empty(),
                Some(p) => if p < id {
                    self.level_path(p as int).push(self.is_last_child(id))
                } else {
                    Seq::empty()
                },
            }
        } else {
            Seq::empty()
        }
    }

    /// How many of the items `0..k` come before the index path `target`.
    pub open spec fn count_before(&self, target: Seq<usize>, k: int) -> nat
        decreases k,
    {
        if k <= 0 {
            0
        } else {
            self.count_before(target, k - 1) + if lex_lt(self.index_path(k - 1), target) {
                1nat
            } else {
                0nat
            }
        }
    }

    /// The place of an item in document order.
    pub open spec fn position(&self, id: int) -> nat {
        self.count_before(self.index_path(id), self.size() as int)
    }

    /// Whether a new item given `parent` would be attached under it: only an
    /// existing node takes children; anything else makes a new root.
    pub open spec fn attaches(&self, parent: Option<usize>) -> bool {
        match parent {
            Some(p) => self.is_node_id(p as int),
            None => false,
        }
    }

    /// The index path a new item given `parent` would get.
    pub open spec fn new_index_path(&self, parent: Option<usize>) -> Seq<usize> {
        if self.attaches(parent) {
            self.index_path(parent->Some_0 as int).push(
                self.children_of(parent->Some_0 as int).len() as usize,
            )
        } else {
            seq![self.roots().len() as usize]
        }
    }

    /// The place in document order that a new item given `parent` would take.
    pub open spec fn new_position(&self, parent: Option<usize>) -> nat {
        self.count_before(self.new_index_path(parent), self.size() as int)
    }
}

impl IncrementalTree {
    /// An empty model drawn with the Unicode style.
    pub fn new() -> (r: Self)
        ensures
            r.wf(),
            r.size() == 0,
            r.roots().len() == 0,
            is_unicode(r.style_spec()),
    {
        Self::with_style(TreeStyle::unicode())
    }

    /// An empty model drawn with `style`.
    pub fn with_style(style: StyleConfig) -> (r: Self)
        ensures
            r.wf(),
            r.size() == 0,
            r.roots().len() == 0,
            r.style_spec() == style,
    {
        IncrementalTree {
            items: Vec::new(),
            parents: Vec::new(),
            children: Vec::new(),
            slots: Vec::new(),
            root_ids: Vec::new(),
            style,
        }
    }

    /// Adds `item` (a node without children, or a leaf) under `parent` where
    /// that is an existing node, else as a new root.
    fn add_item(&mut self, item: Tree, parent: Option<usize>) -> (r: usize)
        requires
            old(self).wf(),
            old(self).size() < usize::MAX,
            tree_value(item) is Node ==> tree_value(item)->Node_1.len() == 0,
        ensures
            final(self).wf(),
            final(self).added(*old(self), r, tree_value(item), parent),
    {
        proof {
            if item is Node {
                lemma_values_of(item->Node_1@);
            }
        }
        let id = self.items.len();
        let attach = match parent {
            Some(p) => p < self.items.len() && self.items[p].is_node(),
            None => false,
        };
        let ghost old_self = *self;
        if attach {
            let p = parent.unwrap();
            let slot = self.children[p].len();
            self.children[p].push(id);
            self.parents.push(Some(p));
            self.slots.push(slot);
        } else {
            let slot = self.root_ids.len();
            self.root_ids.push(id);
            self.parents.push(None);
            self.slots.push(slot);
        }
        self.children.push(Vec::new());
        self.items.push(item);
        proof {
            assert(forall|i: int| 0 <= i < id ==> self.items@[i] == old_self.items@[i]);
            assert(self.children@[id as int]@.len() == 0);
        }
        id
    }

    /// Whether this model is `old` with one item more: identifier `id`,
    /// holding `value`, under `parent` where that is an existing node, else
    /// as the last root; nothing else changes.
    pub open spec fn added(
        &self,
        old: IncrementalTree,
        id: usize,
        value: TreeValue,
        parent: Option<usize>,
    ) -> bool {
        let n = old.size();
        &&& id == n
        &&& self.size() == n + 1
        &&& self.style_spec() == old.style_spec()
        &&& self.item(n as int) == value
        &&& self.children_of(n as int).len() == 0
        &&& forall|i: int|
            0 <= i < n ==> {
                &&& #[trigger] self.item(i) == old.item(i)
                &&& self.parent_of(i) == old.parent_of(i)
                &&& self.slot(i) == old.slot(i)
            }
        &&& if old.attaches(parent) {
            &&& self.parent_of(n as int) == parent
            &&& self.slot(n as int) == old.children_of(parent->Some_0 as int).len()
            &&& self.roots() == old.roots()
            &&& forall|i: int|
                0 <= i < n ==> #[trigger] self.children_of(i) == if i == parent->Some_0 {
                    old.children_of(i).push(id)
                } else {
                    old.children_of(i)
                }
        } else {
            &&& self.parent_of(n as int) is None
            &&& self.slot(n as int) == old.roots().len()
            &&& self.roots() == old.roots().push(id)
            &&& forall|i: int| 0 <= i < n ==> #[trigger] self.children_of(i) == old.children_of(i)
        }
    }
}

impl IncrementalTree {
    /// Adds a node labelled `label`, with no children yet, under `parent`
    /// where that names an existing node; otherwise the node becomes the last
    /// root. Returns its identifier, the next one unused.
    pub fn add_node(&mut self, label: &str, parent: Option<usize>) -> (r: usize)
        requires
            old(self).wf(),
            old(self).size() < usize::MAX,
        ensures
            final(self).wf(),
            final(self).added(*old(self), r, TreeValue::Node(label@, Seq::empty()), parent),
    {
        let node = Tree::new_node(label);
        self.add_item(node, parent)
    }

    /// Adds a leaf of one line under `parent`, with the same placement as
    /// `add_node`.
    pub fn add_leaf(&mut self, line: &str, parent: Option<usize>) -> (r: usize)
        requires
            old(self).wf(),
            old(self).size() < usize::MAX,
        ensures
            final(self).wf(),
            final(self).added(*old(self), r, TreeValue::Leaf(seq![line@]), parent),
    {
        let leaf = Tree::new_leaf(line);
        self.add_item(leaf, parent)
    }

    /// Adds a leaf of the given lines under `parent`, with the same placement
    /// as `add_node`. A leaf needs at least one line: with none, nothing is
    /// added and the result is `None`.
    pub fn add_leaf_lines(&mut self, lines: Vec<&str>, parent: Option<usize>) -> (r: Option<usize>)
        requires
            old(self).wf(),
            old(self).size() < usize::MAX,
        ensures
            final(self).wf(),
            r is None <==> lines@.len() == 0,
            r is None ==> *final(self) == *old(self),
            r is Some ==> final(self).added(
                *old(self),
                r->Some_0,
                TreeValue::Leaf(lines@.map_values(|s: &str| s@)),
                parent,
            ),
    {
        if lines.len() == 0 {
            return None;
        }
        let leaf = Tree::new_leaf_lines(lines);
        Some(self.add_item(leaf, parent))
    }

    /// Adds a node as `add_node` does, but only under an existing node or
    /// as a root: a parent that names no node is refused and nothing changes.
    pub fn try_add_node(&mut self, label: &str, parent: Option<usize>) -> (r: Result<usize, InvalidParent>)
        requires
            old(self).wf(),
            old(self).size() < usize::MAX,
        ensures
            final(self).wf(),
            r is Err <==> (parent is Some && !old(self).attaches(parent)),
            r is Err ==> *final(self) == *old(self),
            r is Ok ==> final(self).added(
                *old(self),
                r->Ok_0,
                TreeValue::Node(label@, Seq::empty()),
                parent,
            ),
    {
        if !self.parent_is_valid(parent) {
            return Err(InvalidParent);
        }
        Ok(self.add_node(label, parent))
    }

    /// Adds a leaf of one line as `add_leaf` does, but only under an
    /// existing node or as a root: a parent that names no node is refused
    /// and nothing changes.
    pub fn try_add_leaf(&mut self, line: &str, parent: Option<usize>) -> (r: Result<usize, InvalidParent>)
        requires
            old(self).wf(),
            old(self).size() < usize::MAX,
        ensures
            final(self).wf(),
            r is Err <==> (parent is Some && !old(self).attaches(parent)),
            r is Err ==> *final(self) == *old(self),
            r is Ok ==> final(self).added(*old(self), r->Ok_0, TreeValue::Leaf(seq![line@]), parent),
    {
        if !self.parent_is_valid(parent) {
            return Err(InvalidParent);
        }
        Ok(self.add_leaf(line, parent))
    }

    /// Adds a leaf of the given lines as `add_leaf_lines` does, but only
    /// under an existing node or as a root.
    pub fn try_add_leaf_lines(&mut self, lines: Vec<&str>, parent: Option<usize>) -> (r: Result<Option<usize>, InvalidParent>)
        requires
            old(self).wf(),
            old(self).size() < usize::MAX,
        ensures
            final(self).wf(),
            r is Err <==> (parent is Some && !old(self).attaches(parent)),
            r is Err ==> *final(self) == *old(self),
            r is Ok ==> {
                &&& (r->Ok_0 is None <==> lines@.len() == 0)
                &&& r->Ok_0 is None ==> *final(self) == *old(self)
                &&& r->Ok_0 is Some ==> final(self).added(
                    *old(self),
                    r->Ok_0->Some_0,
                    TreeValue::Leaf(lines@.map_values(|s: &str| s@)),
                    parent,
                )
            },
    {
        if !self.parent_is_valid(parent) {
            return Err(InvalidParent);
        }
        Ok(self.add_leaf_lines(lines, parent))
    }

    /// Whether `parent` is absent or names an existing node.
    fn parent_is_valid(&self, parent: Option<usize>) -> (r: bool)
        requires
            self.wf(),
        ensures
            r == (parent is None || self.attaches(parent)),
    {
        match parent {
            Some(p) => p < self.items.len() && self.items[p].is_node(),
            None => true,
        }
    }

    /// What the item `id` holds (a node without its children, or a leaf);
    /// `None` where no such item exists.
    pub fn get_tree(&self, id: usize) -> (r: Option<&Tree>)
        requires
            self.wf(),
        ensures
            r is Some <==> id < self.size(),
            r is Some ==> r->Some_0@ == self.item(id as int),
    {
        if id < self.items.len() {
            Some(&self.items[id])
        } else {
            None
        }
    }

    /// The number of items.
    pub fn len(&self) -> (r: usize)
        ensures
            r == self.size(),
    {
        self.items.len()
    }

    /// Whether the model holds no item.
    pub fn is_empty(&self) -> (r: bool)
        ensures
            r == (self.size() == 0),
    {
        self.items.len() == 0
    }

    /// The style that draws the prefixes.
    pub fn style(&self) -> (r: &StyleConfig)
        ensures
            *r == self.style_spec(),
    {
        &self.style
    }
}

/// Whether `a` comes before `b` in lexicographic order.
fn lex_less(a: &Vec<usize>, b: &Vec<usize>) -> (r: bool)
    ensures
        r == lex_lt(a@, b@),
{
    let mut i: usize = 0;
    loop
        invariant
            lex_lt(a@, b@) == lex_from(a@, b@, i as int),
            i <= a@.len(),
            i <= b@.len(),
        decreases a@.len() - i,
    {
        if i >= b.len() {
            return false;
        }
        if i >= a.len() {
            return true;
        }
        if a[i] != b[i] {
            return a[i] < b[i];
        }
        i = i + 1;
    }
}

impl IncrementalTree {
    /// The index path of the item `id`.
    fn index_path_of(&self, id: usize) -> (r: Vec<usize>)
        requires
            self.wf(),
            id < self.size(),
        ensures
            r@ == self.index_path(id as int),
    {
        let mut acc: Vec<usize> = Vec::new();
        let mut cur = id;
        loop
            invariant
                self.wf(),
                cur < self.size(),
                self.index_path(id as int) == self.index_path(cur as int) + acc@,
            decreases cur,
        {
            match self.parents[cur] {
                None => {
                    acc.insert(0, self.slots[cur]);
                    return acc;
                },
                Some(p) => {
                    proof {
                        assert(self.index_path(cur as int) == self.index_path(p as int).push(
                            self.slots@[cur as int],
                        ));
                    }
                    acc.insert(0, self.slots[cur]);
                    cur = p;
                },
            }
        }
    }

    /// How many items come before the index path `target`.
    fn count_items_before(&self, target: &Vec<usize>) -> (r: usize)
        requires
            self.wf(),
        ensures
            r == self.count_before(target@, self.size() as int),
    {
        let n = self.items.len();
        let mut count: usize = 0;
        let mut x: usize = 0;
        while x < n
            invariant
                self.wf(),
                n == self.size(),
                x <= n,
                count == self.count_before(target@, x as int),
                count <= x,
            decreases n - x,
        {
            let path = self.index_path_of(x);
            if lex_less(&path, target) {
                count = count + 1;
            }
            x = x + 1;
        }
        count
    }

    /// The place of the existing item `id` in document order: roots in the
    /// order they were added, each item followed by its children in the
    /// order they were added, recursively.
    pub fn calculate_insert_position_for_existing(&self, id: usize) -> (r: usize)
        requires
            self.wf(),
            id < self.size(),
        ensures
            r == self.position(id as int),
    {
        let path = self.index_path_of(id);
        self.count_items_before(&path)
    }

    /// The place in document order that an item added now under `parent`
    /// would take: after the whole subtree of the parent, or at the very end
    /// for a new root.
    pub fn calculate_insert_position(&self, parent: Option<usize>) -> (r: usize)
        requires
            self.wf(),
        ensures
            r == self.new_position(parent),
    {
        let attach = match parent {
            Some(p) => p < self.items.len() && self.items[p].is_node(),
            None => false,
        };
        let mut path: Vec<usize>;
        if attach {
            let p = parent.unwrap();
            path = self.index_path_of(p);
            path.push(self.children[p].len());
        } else {
            path = Vec::new();
            path.push(self.root_ids.len());
        }
        proof {
            if !attach {
                assert(path@ =~= seq![self.roots().len() as usize]);
            }
        }
        self.count_items_before(&path)
    }

    /// The level path of the item `id`.
    fn level_path_of(&self, id: usize) -> (r: LevelPath)
        requires
            self.wf(),
            id < self.size(),
        ensures
            r@ == self.level_path(id as int),
    {
        let mut acc: Vec<bool> = Vec::new();
        let mut cur = id;
        loop
            invariant
                self.wf(),
                cur < self.size(),
                self.level_path(id as int) == self.level_path(cur as int) + acc@,
            decreases cur,
        {
            match self.parents[cur] {
                None => {
                    assert(acc@ =~= Seq::<bool>::empty() + acc@);
                    return LevelPath::from_vec(acc);
                },
                Some(p) => {
                    assert(self.slots@[cur as int] < self.children@[p as int]@.len());
                    let is_last = self.slots[cur] == self.children[p].len() - 1;
                    proof {
                        assert(self.level_path(cur as int) == self.level_path(p as int).push(
                            is_last,
                        ));
                        assert(self.level_path(p as int).push(is_last) + acc@
                            =~= self.level_path(p as int) + seq![is_last].add(acc@));
                    }
                    acc.insert(0, is_last);
                    cur = p;
                },
            }
        }
    }

    /// The prefix the item `id` is drawn with, from the model as it stands:
    /// `None` for a root or for an identifier that names no item.
    pub fn get_prefix(&self, id: usize) -> (r: Option<String>)
        requires
            self.wf(),
        ensures
            r is Some <==> (id < self.size() && self.parent_of(id as int) is Some),
            r is Some ==> r->Some_0@ == prefix_text(self.level_path(id as int), self.style_spec()),
    {
        if id >= self.items.len() {
            return None;
        }
        if self.parents[id].is_none() {
            return None;
        }
        let path = self.level_path_of(id);
        Some(compute_prefix(&path, &self.style))
    }
}

impl IncrementalTree {
    /// The static tree rooted at the item `id`, children in the order they
    /// were added.
    pub open spec fn subtree_value(&self, id: int) -> TreeValue
        decreases self.size() - id, self.children_of(id).len() + 1,
    {
        if 0 <= id < self.size() {
            match self.item(id) {
                TreeValue::Node(label, _) => TreeValue::Node(
                    label,
                    self.children_values(id, self.children_of(id).len() as int),
                ),
                TreeValue::Leaf(lines) => TreeValue::Leaf(lines),
            }
        } else {
            TreeValue::Leaf(Seq::empty())
        }
    }

    /// The static trees of the first `k` children of the item `id`.
    pub open spec fn children_values(&self, id: int, k: int) -> Seq<TreeValue>
        decreases self.size() - id, k,
    {
        if 0 <= id < self.size() && 0 < k <= self.children_of(id).len() {
            let c = self.children_of(id)[k - 1];
            self.children_values(id, k - 1).push(
                if id < c < self.size() {
                    self.subtree_value(c as int)
                } else {
                    TreeValue::Leaf(Seq::empty())
                },
            )
        } else {
            Seq::empty()
        }
    }

    /// The static tree of the whole model: none for an empty model, the tree
    /// of the only root, or a node with an empty label over all the roots'
    /// trees in the order they were added.
    pub open spec fn model_value(&self) -> Option<TreeValue> {
        if self.size() == 0 {
            None
        } else if self.roots().len() == 1 {
            Some(self.subtree_value(self.roots()[0] as int))
        } else {
            Some(
                TreeValue::Node(
                    Seq::empty(),
                    Seq::new(self.roots().len(), |j: int| self.subtree_value(self.roots()[j] as int)),
                ),
            )
        }
    }

    /// Builds the static tree rooted at the item `id`.
    fn build_subtree(&self, id: usize) -> (r: Tree)
        requires
            self.wf(),
            id < self.size(),
        ensures
            r@ == self.subtree_value(id as int),
        decreases self.size() - id,
    {
        match &self.items[id] {
            Tree::Node(label, _) => {
                let kids = &self.children[id];
                let mut out: Vec<Tree> = Vec::new();
                let mut i: usize = 0;
                while i < kids.len()
                    invariant
                        self.wf(),
                        id < self.size(),
                        *kids == self.children@[id as int],
                        i <= kids@.len(),
                        values_of(out@) == self.children_values(id as int, i as int),
                    decreases kids@.len() - i,
                {
                    let c = kids[i];
                    assert(id < c < self.size());
                    let t = self.build_subtree(c);
                    proof {
                        lemma_values_of_push(out@, t);
                    }
                    out.push(t);
                    i = i + 1;
                }
                Tree::Node(label.clone(), out)
            },
            Tree::Leaf(lines) => Tree::Leaf(lines.clone()),
        }
    }

    /// The static tree of the whole model, as `model_value` describes it. It
    /// is a copy: later additions to the model leave it as it is.
    pub fn build_tree(&self) -> (r: Option<Tree>)
        requires
            self.wf(),
        ensures
            r is Some <==> self.model_value() is Some,
            r is Some ==> r->Some_0@ == self.model_value()->Some_0,
    {
        if self.items.len() == 0 {
            return None;
        }
        proof {
            assert(self.parents@[0] is None);
        }
        if self.root_ids.len() == 1 {
            return Some(self.build_subtree(self.root_ids[0]));
        }
        let mut out: Vec<Tree> = Vec::new();
        let mut i: usize = 0;
        while i < self.root_ids.len()
            invariant
                self.wf(),
                i <= self.root_ids@.len(),
                values_of(out@) =~= Seq::new(
                    i as nat,
                    |j: int| self.subtree_value(self.roots()[j] as int),
                ),
            decreases self.root_ids@.len() - i,
        {
            let t = self.build_subtree(self.root_ids[i]);
            proof {
                lemma_values_of_push(out@, t);
            }
            out.push(t);
            i = i + 1;
        }
        Some(Tree::Node(String::new(), out))
    }
}

/// No index path comes before itself.
pub proof fn lemma_lex_irreflexive(a: Seq<usize>, i: int)
    requires
        0 <= i,
    ensures
        !lex_from(a, a, i),
    decreases a.len() - i,
{
    if i < a.len() {
        lemma_lex_irreflexive(a, i + 1);
    }
}

/// Adding an item leaves the index path of every earlier item as it was,
/// and gives the new item the path that `new_index_path` announced.
proof fn lemma_added_index_paths(
    old: IncrementalTree,
    new: IncrementalTree,
    id: usize,
    value: TreeValue,
    parent: Option<usize>,
    i: int,
)
    requires
        old.wf(),
        new.wf(),
        new.added(old, id, value, parent),
        0 <= i <= old.size(),
    ensures
        i < old.size() ==> new.index_path(i) == old.index_path(i),
        i == old.size() ==> new.index_path(i) == old.new_index_path(parent),
    decreases i,
{
    if i == old.size() {
        match new.parents@[i] {
            Some(p) => {
                lemma_added_index_paths(old, new, id, value, parent, p as int);
            },
            None => {},
        }
    } else {
        assert(new.item(i) == old.item(i));
        match new.parents@[i] {
            Some(p) => {
                lemma_added_index_paths(old, new, id, value, parent, p as int);
            },
            None => {},
        }
    }
}

/// Adding an item does not change how many earlier items precede a path.
proof fn lemma_added_count_before(
    old: IncrementalTree,
    new: IncrementalTree,
    id: usize,
    value: TreeValue,
    parent: Option<usize>,
    target: Seq<usize>,
    k: int,
)
    requires
        old.wf(),
        new.wf(),
        new.added(old, id, value, parent),
        0 <= k <= old.size(),
    ensures
        new.count_before(target, k) == old.count_before(target, k),
    decreases k,
{
    if k > 0 {
        lemma_added_count_before(old, new, id, value, parent, target, k - 1);
        lemma_added_index_paths(old, new, id, value, parent, k - 1);
    }
}

/// An item added under `parent` takes in document order the place that
/// `calculate_insert_position(parent)` gave just before it was added.
pub proof fn law_insert_position_kept(
    old: IncrementalTree,
    new: IncrementalTree,
    id: usize,
    value: TreeValue,
    parent: Option<usize>,
)
    requires
        old.wf(),
        new.wf(),
        new.added(old, id, value, parent),
    ensures
        new.position(id as int) == old.new_position(parent),
{
    let n = old.size() as int;
    lemma_added_index_paths(old, new, id, value, parent, n);
    let target = old.new_index_path(parent);
    lemma_added_count_before(old, new, id, value, parent, target, n);
    lemma_lex_irreflexive(target, 0);
    assert(new.count_before(target, n + 1) == new.count_before(target, n));
}

/// The links of the model, as its well-formedness guarantees them: an item
/// with a parent sits at its slot among that parent's children, which is a
/// node with a smaller identifier; a root sits at its slot among the roots;
/// each child listed under an item has that item as parent and its place
/// in the list as slot; only nodes have children.
pub proof fn lemma_links(m: IncrementalTree, i: int)
    requires
        m.wf(),
        0 <= i < m.size(),
    ensures
        match m.parent_of(i) {
            Some(p) => {
                &&& p < i
                &&& m.is_node_id(p as int)
                &&& m.slot(i) < m.children_of(p as int).len()
                &&& m.children_of(p as int)[m.slot(i) as int] == i
            },
            None => {
                &&& m.slot(i) < m.roots().len()
                &&& m.roots()[m.slot(i) as int] == i
            },
        },
        forall|k: int|
            0 <= k < m.children_of(i).len() ==> {
                let c = #[trigger] m.children_of(i)[k];
                &&& i < c < m.size()
                &&& m.parent_of(c as int) == Some(i as usize)
                &&& m.slot(c as int) == k
            },
        m.children_of(i).len() > 0 ==> m.item(i) is Node,
{
    assert(m.parents@[i] == m.parent_of(i));
    if m.children_of(i).len() > 0 {
        let c = m.children@[i]@[0];
        assert(m.parents@[c as int] == Some(i as usize));
    }
}

/// Each root is an item without a parent, at its place among the roots.
pub proof fn lemma_root_links(m: IncrementalTree, k: int)
    requires
        m.wf(),
        0 <= k < m.roots().len(),
    ensures
        m.roots()[k] < m.size(),
        m.parent_of(m.roots()[k] as int) is None,
        m.slot(m.roots()[k] as int) == k,
{
    assert(m.root_ids@[k] == m.roots()[k]);
}

/// Whether two models link the same identifiers the same way: as many
/// items, the same parents, the same lists of children, the same roots in
/// the same order, and nodes where nodes are. Labels, lines and styles may
/// differ.
pub open spec fn same_topology(a: IncrementalTree, b: IncrementalTree) -> bool {
    &&& a.size() == b.size()
    &&& a.roots() == b.roots()
    &&& forall|i: int|
        0 <= i < a.size() ==> {
            &&& #[trigger] a.parent_of(i) == b.parent_of(i)
            &&& a.children_of(i) == b.children_of(i)
            &&& (a.item(i) is Node) == (b.item(i) is Node)
        }
}

/// Models with the same topology give each item the same slot.
proof fn lemma_same_topology_slots(a: IncrementalTree, b: IncrementalTree, i: int)
    requires
        a.wf(),
        b.wf(),
        same_topology(a, b),
        0 <= i < a.size(),
    ensures
        a.slot(i) == b.slot(i),
{
    lemma_links(a, i);
    lemma_links(b, i);
    assert(a.parent_of(i) == b.parent_of(i));
    match a.parent_of(i) {
        Some(p) => {
            assert(a.parent_of(p as int) == b.parent_of(p as int));
            lemma_links(b, p as int);
            assert(b.children_of(p as int)[a.slot(i) as int] == i);
        },
        None => {
            lemma_root_links(b, a.slot(i) as int);
        },
    }
}

/// A prefix is a function of the topology alone: two models with the same
/// topology give every item the same index path and the same level path,
/// and so, drawn with the same style, the same prefix; drawn with two
/// styles, the prefixes are those of one level path in the two styles.
pub proof fn law_prefix_depends_on_topology(a: IncrementalTree, b: IncrementalTree, id: int)
    requires
        a.wf(),
        b.wf(),
        same_topology(a, b),
    ensures
        a.level_path(id) == b.level_path(id),
        a.index_path(id) == b.index_path(id),
        a.style_spec() == b.style_spec() ==> prefix_text(a.level_path(id), a.style_spec())
            == prefix_text(b.level_path(id), b.style_spec()),
    decreases id,
{
    if 0 <= id < a.size() {
        assert(a.parent_of(id) == b.parent_of(id));
        lemma_same_topology_slots(a, b, id);
        match a.parent_of(id) {
            Some(p) => {
                lemma_links(a, id);
                law_prefix_depends_on_topology(a, b, p as int);
                assert(a.children_of(p as int) == b.children_of(p as int));
            },
            None => {},
        }
    }
}

/// Two models with the same topology, given additions of the same kind
/// under the same parent argument, hand out the same identifier and keep
/// the same topology: so the same sequence of additions, made to models
/// drawn with different styles, gives every item one level path in both.
pub proof fn law_same_additions(
    a0: IncrementalTree,
    b0: IncrementalTree,
    a1: IncrementalTree,
    b1: IncrementalTree,
    ida: usize,
    idb: usize,
    va: TreeValue,
    vb: TreeValue,
    parent: Option<usize>,
)
    requires
        a0.wf(),
        b0.wf(),
        same_topology(a0, b0),
        a1.added(a0, ida, va, parent),
        b1.added(b0, idb, vb, parent),
        (va is Node) == (vb is Node),
    ensures
        ida == idb,
        same_topology(a1, b1),
{
    let n = a0.size() as int;
    if parent is Some && 0 <= parent->Some_0 < n {
        let p = parent->Some_0 as int;
        assert(a0.parent_of(p) == b0.parent_of(p));
    }
    assert(a0.attaches(parent) == b0.attaches(parent));
    assert forall|i: int| 0 <= i < a1.size() implies {
        &&& #[trigger] a1.parent_of(i) == b1.parent_of(i)
        &&& a1.children_of(i) == b1.children_of(i)
        &&& (a1.item(i) is Node) == (b1.item(i) is Node)
    } by {
        if i < n {
            assert(a1.item(i) == a0.item(i));
            assert(b1.item(i) == b0.item(i));
            assert(a0.parent_of(i) == b0.parent_of(i));
            assert(a1.children_of(i) == if a0.attaches(parent) && i == parent->Some_0 {
                a0.children_of(i).push(ida)
            } else {
                a0.children_of(i)
            });
        }
    }
}

/// The child at place `k` among the children of `p` is drawn below the
/// prefix of its parent's continuation, with the last-child glyph exactly
/// when it is the last of them, and the branch glyph otherwise.
pub proof fn law_last_child(m: IncrementalTree, p: int, k: int)
    requires
        m.wf(),
        0 <= p < m.size(),
        0 <= k < m.children_of(p).len(),
    ensures
        m.is_last_child(m.children_of(p)[k] as int) == (k == m.children_of(p).len() - 1),
        m.level_path(m.children_of(p)[k] as int) == m.level_path(p).push(
            k == m.children_of(p).len() - 1,
        ),
        prefix_text(m.level_path(m.children_of(p)[k] as int), m.style_spec())
            == crate::prefix::continuation_text(m.level_path(p), m.style_spec())
            + (if k == m.children_of(p).len() - 1 {
            m.style_spec().last@
        } else {
            m.style_spec().branch@
        }),
{
    let c = m.children@[p]@[k];
    assert(m.parents@[c as int] == Some(p as usize));
    let path = m.level_path(c as int);
    assert(path.drop_last() =~= m.level_path(p));
}

/// Adding a child under a node that has children takes the last-child mark
/// from the child that had it: that one is now drawn with the branch glyph,
/// and the new child with the last-child glyph.
pub proof fn law_last_mark_moves(
    old: IncrementalTree,
    new: IncrementalTree,
    id: usize,
    value: TreeValue,
    parent: Option<usize>,
)
    requires
        old.wf(),
        new.wf(),
        new.added(old, id, value, parent),
        old.attaches(parent),
        old.children_of(parent->Some_0 as int).len() > 0,
    ensures
        old.is_last_child(old.children_of(parent->Some_0 as int).last() as int),
        !new.is_last_child(old.children_of(parent->Some_0 as int).last() as int),
        new.is_last_child(id as int),
{
    let p = parent->Some_0 as int;
    let a = old.children_of(p).last() as int;
    let k = old.children_of(p).len() - 1;
    assert(old.children@[p]@[k] == a);
    assert(old.parents@[a] == Some(p as usize));
    assert(new.item(a) == old.item(a));
    assert(new.children_of(p) == old.children_of(p).push(id));
}

impl IncrementalTree {
    /// Whether `d` is `x` or lies below it.
    pub open spec fn descends_from(&self, d: int, x: int) -> bool
        decreases d,
    {
        d == x || (0 <= d < self.size() && match self.parent_of(d) {
            Some(q) => q < d && self.descends_from(q as int, x),
            None => false,
        })
    }
}

/// Adding a child under a node whose last child is `x` changes one flag of
/// the level paths and nothing else: `x` and every item below it now see
/// `x` as a child with later siblings at `x`'s own level; every other
/// earlier item keeps its level path.
proof fn lemma_mark_moves_below(
    old: IncrementalTree,
    new: IncrementalTree,
    id: usize,
    value: TreeValue,
    parent: Option<usize>,
    d: int,
)
    requires
        old.wf(),
        new.wf(),
        new.added(old, id, value, parent),
        old.attaches(parent),
        old.children_of(parent->Some_0 as int).len() > 0,
        0 <= d < old.size(),
    ensures
        ({
            let x = old.children_of(parent->Some_0 as int).last() as int;
            let k = old.level_path(parent->Some_0 as int).len() as int;
            &&& old.descends_from(d, x) ==> old.level_path(d).len() > k
            &&& new.level_path(d) == if old.descends_from(d, x) {
                old.level_path(d).update(k, false)
            } else {
                old.level_path(d)
            }
        }),
    decreases d,
{
    let p = parent->Some_0 as int;
    let x = old.children_of(p).last() as int;
    let k = old.level_path(p).len() as int;
    let last = old.children_of(p).len() - 1;
    lemma_links(old, p);
    assert(old.children_of(p)[last] == x);
    assert(new.item(d) == old.item(d));
    lemma_links(old, d);
    match old.parent_of(d) {
        Some(q) => {
            let q = q as int;
            lemma_mark_moves_below(old, new, id, value, parent, q);
            assert(new.item(q) == old.item(q));
            if q == p {
                assert(new.children_of(p) == old.children_of(p).push(id));
            } else {
                assert(new.children_of(q) == old.children_of(q));
            }
            if d == x {
                assert(old.slot(d) == last);
                assert(!old.descends_from(q, x)) by {
                    if old.descends_from(q, x) {
                        lemma_below_is_later(old, q, x);
                    }
                }
                assert(old.level_path(d).update(k, false) =~= new.level_path(d));
            } else if old.descends_from(q, x) {
                assert(new.is_last_child(d) == old.is_last_child(d));
                assert(old.level_path(d).update(k, false) =~= old.level_path(q).update(k, false).push(
                    old.is_last_child(d),
                ));
            } else {
                if q == p {
                    assert(old.slot(d) != last);
                }
                assert(new.is_last_child(d) == old.is_last_child(d));
            }
        },
        None => {},
    }
}

/// An item below `x` has an identifier no smaller than `x`'s.
proof fn lemma_below_is_later(m: IncrementalTree, d: int, x: int)
    requires
        m.wf(),
        m.descends_from(d, x),
    ensures
        d >= x,
    decreases d,
{
    if d != x {
        lemma_links(m, d);
        lemma_below_is_later(m, m.parent_of(d)->Some_0 as int, x);
    }
}

/// Adding a child under a node that has children takes the last-child mark
/// from the child `x` that had it: `x` and all the items below it now draw
/// a vertical bar (or, for `x` itself, the branch glyph) at `x`'s level
/// where they drew blank space (or the last-child glyph), every other
/// earlier item keeps its level path, and the new child is the last one.
pub proof fn law_retroactive_update(
    old: IncrementalTree,
    new: IncrementalTree,
    id: usize,
    value: TreeValue,
    parent: Option<usize>,
    d: int,
)
    requires
        old.wf(),
        new.wf(),
        new.added(old, id, value, parent),
        old.attaches(parent),
        old.children_of(parent->Some_0 as int).len() > 0,
        0 <= d < old.size(),
    ensures
        ({
            let x = old.children_of(parent->Some_0 as int).last() as int;
            let k = old.level_path(parent->Some_0 as int).len() as int;
            &&& old.descends_from(d, x) ==> old.level_path(d)[k] && !new.level_path(d)[k]
            &&& new.level_path(d) == if old.descends_from(d, x) {
                old.level_path(d).update(k, false)
            } else {
                old.level_path(d)
            }
        }),
        new.level_path(id as int) == old.level_path(parent->Some_0 as int).push(true),
{
    lemma_mark_moves_below(old, new, id, value, parent, d);
    law_last_mark_moves(old, new, id, value, parent);
    let p = parent->Some_0 as int;
    let x = old.children_of(p).last() as int;
    if old.descends_from(d, x) {
        lemma_flag_on_path(old, d, x, p);
    }
    lemma_links(old, p);
    assert(old.children_of(p)[old.children_of(p).len() - 1] == x);
    lemma_links(old, x);
    assert(!old.descends_from(p, x)) by {
        if old.descends_from(p, x) {
            lemma_below_is_later(old, p, x);
        }
    }
    lemma_mark_moves_below(old, new, id, value, parent, p);
}

/// Every item below the last child `x` of `p` sees `x` as a last child at
/// `x`'s level.
proof fn lemma_flag_on_path(m: IncrementalTree, d: int, x: int, p: int)
    requires
        m.wf(),
        0 <= p < m.size(),
        m.children_of(p).len() > 0,
        x == m.children_of(p).last(),
        m.descends_from(d, x),
    ensures
        m.level_path(d).len() > m.level_path(p).len(),
        m.level_path(d)[m.level_path(p).len() as int],
    decreases d,
{
    lemma_links(m, p);
    assert(m.children_of(p)[m.children_of(p).len() - 1] == x);
    lemma_links(m, x);
    if d != x {
        lemma_links(m, d);
        let q = m.parent_of(d)->Some_0 as int;
        lemma_flag_on_path(m, q, x, p);
    }
}

} // verus!

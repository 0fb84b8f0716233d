//! The static tree: labelled nodes with ordered children, and leaves of text lines.
use vstd::prelude::*;

verus! {

/// A static tree.
pub enum Tree {
    Node(String, Vec<Tree>),
    Leaf(Vec<String>),
}

/// The mathematical value of a `Tree`.
pub enum TreeValue {
    Node(Seq<char>, Seq<TreeValue>),
    Leaf(Seq<Seq<char>>),
}

/// The text of each string.
pub open spec fn texts(s: Seq<String>) -> Seq<Seq<char>> {
    s.map_values(|x: String| x@)
}

/// The value of a tree.
pub open spec fn tree_value(t: Tree) -> TreeValue
    decreases t,
{
    match t {
        Tree::Node(label, children) => TreeValue::Node(label@, values_of(children@)),
        Tree::Leaf(lines) => TreeValue::Leaf(texts(lines@)),
    }
}

/// The values of a sequence of trees.
pub open spec fn values_of(s: Seq<Tree>) -> Seq<TreeValue>
    decreases s,
{
    if s.len() == 0 {
        Seq::empty()
    } else {
        values_of(s.drop_last()).push(tree_value(s.last()))
    }
}

impl View for Tree {
    type V = TreeValue;

    open spec fn view(&self) -> TreeValue {
        tree_value(*self)
    }
}

/// `values_of` keeps the length and maps each tree to its value.
pub broadcast proof fn lemma_values_of(s: Seq<Tree>)
    ensures
        #[trigger] values_of(s).len() == s.len(),
        forall|i: int| 0 <= i < s.len() ==> #[trigger] values_of(s)[i] == tree_value(s[i]),
    decreases s.len(),
{
    if s.len() > 0 {
        lemma_values_of(s.drop_last());
    }
}

/// `values_of` of a sequence with one more tree at its end.
pub proof fn lemma_values_of_push(s: Seq<Tree>, t: Tree)
    ensures
        values_of(s.push(t)) == values_of(s).push(tree_value(t)),
{
    assert(s.push(t).drop_last() =~= s);
}

/// `values_of` of a sequence with one tree replaced.
pub proof fn lemma_values_of_update(s: Seq<Tree>, k: int, t: Tree)
    requires
        0 <= k < s.len(),
    ensures
        values_of(s.update(k, t)) == values_of(s).update(k, tree_value(t)),
{
    lemma_values_of(s);
    lemma_values_of(s.update(k, t));
    assert(values_of(s.update(k, t)) =~= values_of(s).update(k, tree_value(t)));
}

/// `values_of` of a sequence with one tree inserted.
pub proof fn lemma_values_of_insert(s: Seq<Tree>, k: int, t: Tree)
    requires
        0 <= k <= s.len(),
    ensures
        values_of(s.insert(k, t)) == values_of(s).insert(k, tree_value(t)),
{
    lemma_values_of(s);
    lemma_values_of(s.insert(k, t));
    assert(values_of(s.insert(k, t)) =~= values_of(s).insert(k, tree_value(t)));
}

impl Clone for Tree {
    fn clone(&self) -> (r: Self)
        ensures
            r@ == self@,
        decreases self,
    {
        match self {
            Tree::Node(label, children) => {
                let mut out: Vec<Tree> = Vec::new();
                let mut i: usize = 0;
                while i < children.len()
                    invariant
                        i <= children@.len(),
                        *self is Node,
                        (*self)->Node_1 == *children,
                        values_of(out@) == values_of(children@.take(i as int)),
                    decreases children@.len() - i,
                {
                    proof {
                        assert(decreases_to!(*self => (*self)->Node_1));
                    }
                    let c = children[i].clone();
                    proof {
                        lemma_values_of_push(out@, c);
                        lemma_values_of_push(children@.take(i as int), children@[i as int]);
                        assert(children@.take(i + 1) =~= children@.take(i as int).push(
                            children@[i as int],
                        ));
                    }
                    out.push(c);
                    i = i + 1;
                }
                assert(children@.take(i as int) =~= children@);
                Tree::Node(label.clone(), out)
            },
            Tree::Leaf(lines) => {
                let r = lines.clone();
                assert(texts(r@) =~= texts(lines@));
                Tree::Leaf(r)
            },
        }
    }
}

/// Whether two sequences of strings hold the same texts.
pub fn same_lines(a: &Vec<String>, b: &Vec<String>) -> (r: bool)
    ensures
        r == (texts(a@) == texts(b@)),
{
    if a.len() != b.len() {
        assert(texts(a@).len() != texts(b@).len());
        return false;
    }
    let mut i: usize = 0;
    while i < a.len()
        invariant
            i <= a@.len() == b@.len(),
            forall|j: int| 0 <= j < i ==> a@[j]@ == b@[j]@,
        decreases a@.len() - i,
    {
        if a[i] != b[i] {
            assert(texts(a@)[i as int] != texts(b@)[i as int]);
            return false;
        }
        i = i + 1;
    }
    assert(texts(a@) =~= texts(b@));
    true
}

impl PartialEq for Tree {
    fn eq(&self, other: &Tree) -> (r: bool)
        decreases self,
    {
        match self {
            Tree::Node(l1, c1) => {
                match other {
                    Tree::Node(l2, c2) => {
                        proof {
                            lemma_values_of(c1@);
                            lemma_values_of(c2@);
                        }
                        assert(self@ == TreeValue::Node(l1@, values_of(c1@)));
                        assert(other@ == TreeValue::Node(l2@, values_of(c2@)));
                        if *l1 != *l2 || c1.len() != c2.len() {
                            return false;
                        }
                        let mut i: usize = 0;
                        while i < c1.len()
                            invariant
                                i <= c1@.len() == c2@.len(),
                                *self is Node,
                                (*self)->Node_1 == *c1,
                                self@ == TreeValue::Node(l1@, values_of(c1@)),
                                other@ == TreeValue::Node(l2@, values_of(c2@)),
                                values_of(c1@).len() == c1@.len(),
                                values_of(c2@).len() == c2@.len(),
                                forall|j: int|
                                    0 <= j < c1@.len() ==> #[trigger] values_of(c1@)[j]
                                        == tree_value(c1@[j]),
                                forall|j: int|
                                    0 <= j < c2@.len() ==> #[trigger] values_of(c2@)[j]
                                        == tree_value(c2@[j]),
                                forall|j: int|
                                    0 <= j < i ==> tree_value(c1@[j]) == tree_value(c2@[j]),
                            decreases c1@.len() - i,
                        {
                            proof {
                                assert(decreases_to!(*self => (*self)->Node_1));
                            }
                            if !c1[i].eq(&c2[i]) {
                                assert(values_of(c1@)[i as int] != values_of(c2@)[i as int]);
                                return false;
                            }
                            i = i + 1;
                        }
                        assert(values_of(c1@) =~= values_of(c2@));
                        true
                    },
                    Tree::Leaf(_) => false,
                }
            },
            Tree::Leaf(a) => {
                match other {
                    Tree::Leaf(b) => {
                        assert(self@ == TreeValue::Leaf(texts(a@)));
                        assert(other@ == TreeValue::Leaf(texts(b@)));
                        same_lines(a, b)
                    },
                    Tree::Node(_, _) => false,
                }
            },
        }
    }
}

impl vstd::std_specs::cmp::PartialEqSpecImpl for Tree {
    open spec fn obeys_eq_spec() -> bool {
        true
    }

    open spec fn eq_spec(&self, other: &Tree) -> bool {
        self@ == other@
    }
}

impl Tree {
    /// A node with no children.
    pub fn new_node(label: &str) -> (r: Tree)
        ensures
            r@ == TreeValue::Node(label@, Seq::empty()),
    {
        let r = Tree::Node(String::from_str(label), Vec::new());
        assert(values_of(Seq::<Tree>::empty()) =~= Seq::empty());
        r
    }

    /// A leaf of one line.
    pub fn new_leaf(line: &str) -> (r: Tree)
        ensures
            r@ == TreeValue::Leaf(seq![line@]),
    {
        let mut v: Vec<String> = Vec::new();
        v.push(String::from_str(line));
        assert(texts(v@) =~= seq![line@]);
        Tree::Leaf(v)
    }

    /// A leaf of the given lines.
    pub fn new_leaf_lines(lines: Vec<&str>) -> (r: Tree)
        ensures
            r@ == TreeValue::Leaf(lines@.map_values(|s: &str| s@)),
    {
        let mut v: Vec<String> = Vec::new();
        let mut i: usize = 0;
        while i < lines.len()
            invariant
                i <= lines@.len(),
                v@.len() == i,
                forall|k: int| 0 <= k < i ==> #[trigger] v@[k]@ == lines@[k]@,
            decreases lines@.len() - i,
        {
            v.push(String::from_str(lines[i]));
            i = i + 1;
        }
        assert(texts(v@) =~= lines@.map_values(|s: &str| s@));
        Tree::Leaf(v)
    }

    /// Appends `child` to a node and hands the node back; a leaf takes no
    /// child and gives `None`.
    pub fn add_child(&mut self, child: Tree) -> (r: Option<&mut Tree>)
        ensures
            r is Some <==> *old(self) is Node,
            *old(self) is Leaf ==> *final(self) == *old(self),
            *old(self) is Node ==> {
                &&& final(self)@ == (*final(r->Some_0))@
                &&& (*(r->Some_0))@ == TreeValue::Node(
                    old(self)@->Node_0,
                    old(self)@->Node_1.push(child@),
                )
            },
    {
        match self {
            Tree::Node(_, children) => {
                proof {
                    lemma_values_of_push(children@, child);
                }
                children.push(child);
                Some(self)
            },
            Tree::Leaf(_) => None,
        }
    }

    /// The number of children of a node; `None` for a leaf.
    pub fn child_count(&self) -> (r: Option<usize>)
        ensures
            r is Some <==> self@ is Node,
            r is Some ==> r->Some_0 == self@->Node_1.len(),
    {
        match self {
            Tree::Node(_, children) => {
                proof {
                    lemma_values_of(children@);
                }
                Some(children.len())
            },
            Tree::Leaf(_) => None,
        }
    }

    /// Whether this is a node.
    pub fn is_node(&self) -> (r: bool)
        ensures
            r == (self@ is Node),
    {
        match self {
            Tree::Node(_, _) => true,
            Tree::Leaf(_) => false,
        }
    }

    /// Whether this is a leaf.
    pub fn is_leaf(&self) -> (r: bool)
        ensures
            r == (self@ is Leaf),
    {
        match self {
            Tree::Node(_, _) => false,
            Tree::Leaf(_) => true,
        }
    }

    /// The label of a node; `None` for a leaf.
    pub fn label(&self) -> (r: Option<&str>)
        ensures
            r is Some <==> self@ is Node,
            r is Some ==> r->Some_0@ == self@->Node_0,
    {
        match self {
            Tree::Node(label, _) => Some(label.as_str()),
            Tree::Leaf(_) => None,
        }
    }

    /// The lines of a leaf; `None` for a node.
    pub fn lines(&self) -> (r: Option<&[String]>)
        ensures
            r is Some <==> self@ is Leaf,
            r is Some ==> texts(r->Some_0@) == self@->Leaf_0,
    {
        match self {
            Tree::Node(_, _) => None,
            Tree::Leaf(lines) => Some(lines.as_slice()),
        }
    }

    /// The children of a node; `None` for a leaf.
    pub fn children(&self) -> (r: Option<&[Tree]>)
        ensures
            r is Some <==> self@ is Node,
            r is Some ==> values_of(r->Some_0@) == self@->Node_1,
    {
        match self {
            Tree::Node(_, children) => Some(children.as_slice()),
            Tree::Leaf(_) => None,
        }
    }

    /// The children of a node, to be changed in place; `None` for a leaf.
    pub fn children_mut(&mut self) -> (r: Option<&mut Vec<Tree>>)
        ensures
            r is Some <==> *old(self) is Node,
            *old(self) is Leaf ==> *final(self) == *old(self),
            *old(self) is Node ==> {
                &&& *(r->Some_0) == (*old(self))->Node_1
                &&& *final(self) == Tree::Node((*old(self))->Node_0, *final(r->Some_0))
            },
    {
        match self {
            Tree::Node(_, children) => Some(children),
            Tree::Leaf(_) => None,
        }
    }

    /// Every tree of this shape is well formed: the check always succeeds.
    pub fn validate(&self) -> (r: Result<(), String>)
        ensures
            r is Ok,
    {
        Ok(())
    }

    /// Whether `validate` succeeds, which it always does.
    pub fn is_valid(&self) -> (r: bool)
        ensures
            r,
    {
        self.validate().is_ok()
    }
}

/// A copy of each tree of `v`.
pub fn clone_trees(v: &Vec<Tree>) -> (r: Vec<Tree>)
    ensures
        values_of(r@) == values_of(v@),
{
    let mut out: Vec<Tree> = Vec::new();
    let mut i: usize = 0;
    while i < v.len()
        invariant
            i <= v@.len(),
            values_of(out@) == values_of(v@.take(i as int)),
        decreases v@.len() - i,
    {
        let c = v[i].clone();
        proof {
            lemma_values_of_push(out@, c);
            lemma_values_of_push(v@.take(i as int), v@[i as int]);
            assert(v@.take(i + 1) =~= v@.take(i as int).push(v@[i as int]));
        }
        out.push(c);
        i = i + 1;
    }
    assert(v@.take(i as int) =~= v@);
    out
}

} // verus!

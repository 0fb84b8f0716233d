//! Finding nodes and leaves in a static tree.
use crate::text::{contains_text, occurs_in, same_text};
use crate::tree::{lemma_values_of, texts, values_of, Tree, TreeValue};
use vstd::prelude::*;

verus! {

/// Whether some line of `lines` contains `p`.
pub open spec fn some_line_has(lines: Seq<Seq<char>>, p: Seq<char>) -> bool {
    exists|i: int| 0 <= i < lines.len() && occurs_in(#[trigger] lines[i], p)
}

/// Whether the top of `t` matches `p`: a node labelled `p`, or a leaf with
/// a line that contains `p`.
pub open spec fn top_matches(t: TreeValue, p: Seq<char>) -> bool {
    match t {
        TreeValue::Node(label, _) => label == p,
        TreeValue::Leaf(lines) => some_line_has(lines, p),
    }
}

/// The first node labelled `label`, in document order.
pub open spec fn first_node(t: TreeValue, label: Seq<char>) -> Option<TreeValue>
    decreases t, 0int,
{
    match t {
        TreeValue::Node(l, ch) => if l == label {
            Some(t)
        } else {
            first_node_in(ch, label, 0)
        },
        TreeValue::Leaf(_) => None,
    }
}

/// The first node labelled `label` within the trees of `ch` from `i` on.
pub open spec fn first_node_in(ch: Seq<TreeValue>, label: Seq<char>, i: int) -> Option<TreeValue>
    decreases ch, ch.len() - i,
{
    if i < 0 || i >= ch.len() {
        None
    } else {
        match first_node(ch[i], label) {
            Some(x) => Some(x),
            None => first_node_in(ch, label, i + 1),
        }
    }
}

/// The first leaf with a line that contains `p`, in document order.
pub open spec fn first_leaf(t: TreeValue, p: Seq<char>) -> Option<TreeValue>
    decreases t, 0int,
{
    match t {
        TreeValue::Node(_, ch) => first_leaf_in(ch, p, 0),
        TreeValue::Leaf(lines) => if some_line_has(lines, p) {
            Some(t)
        } else {
            None
        },
    }
}

/// The first leaf with a line that contains `p` within the trees of `ch`
/// from `i` on.
pub open spec fn first_leaf_in(ch: Seq<TreeValue>, p: Seq<char>, i: int) -> Option<TreeValue>
    decreases ch, ch.len() - i,
{
    if i < 0 || i >= ch.len() {
        None
    } else {
        match first_leaf(ch[i], p) {
            Some(x) => Some(x),
            None => first_leaf_in(ch, p, i + 1),
        }
    }
}

/// The nodes labelled `label`, in document order.
pub open spec fn all_nodes(t: TreeValue, label: Seq<char>) -> Seq<TreeValue>
    decreases t, 0int,
{
    match t {
        TreeValue::Node(l, ch) => (if l == label {
            seq![t]
        } else {
            Seq::empty()
        }) + all_nodes_in(ch, label, ch.len() as int),
        TreeValue::Leaf(_) => Seq::empty(),
    }
}

/// The nodes labelled `label` within the first `k` trees of `ch`.
pub open spec fn all_nodes_in(ch: Seq<TreeValue>, label: Seq<char>, k: int) -> Seq<TreeValue>
    decreases ch, k,
{
    if k <= 0 || k > ch.len() {
        Seq::empty()
    } else {
        all_nodes_in(ch, label, k - 1) + all_nodes(ch[k - 1], label)
    }
}

/// The child indexes leading to the first item that matches `p`, in
/// document order.
pub open spec fn path_to_match(t: TreeValue, p: Seq<char>) -> Option<Seq<usize>>
    decreases t, 0int,
{
    if top_matches(t, p) {
        Some(Seq::empty())
    } else {
        match t {
            TreeValue::Node(_, ch) => path_in(ch, p, 0),
            TreeValue::Leaf(_) => None,
        }
    }
}

/// The path to the first match within the trees of `ch` from `i` on, led by
/// the index of the child it lies in.
pub open spec fn path_in(ch: Seq<TreeValue>, p: Seq<char>, i: int) -> Option<Seq<usize>>
    decreases ch, ch.len() - i,
{
    if i < 0 || i >= ch.len() {
        None
    } else {
        match path_to_match(ch[i], p) {
            Some(rest) => Some(seq![i as usize] + rest),
            None => path_in(ch, p, i + 1),
        }
    }
}

/// Whether some line of `lines` contains `p`.
fn any_line_contains(lines: &Vec<String>, p: &str) -> (r: bool)
    ensures
        r == some_line_has(texts(lines@), p@),
{
    let mut i: usize = 0;
    while i < lines.len()
        invariant
            i <= lines@.len(),
            forall|j: int| 0 <= j < i ==> !occurs_in(#[trigger] texts(lines@)[j], p@),
        decreases lines@.len() - i,
    {
        if contains_text(lines[i].as_str(), p) {
            assert(occurs_in(texts(lines@)[i as int], p@));
            return true;
        }
        i = i + 1;
    }
    false
}

impl Tree {
    /// The first node labelled `label`, in document order.
    pub fn find_node(&self, label: &str) -> (r: Option<&Tree>)
        ensures
            match r {
                Some(t) => first_node(self@, label@) == Some(t@),
                None => first_node(self@, label@) is None,
            },
        decreases self,
    {
        match self {
            Tree::Node(l, children) => {
                if same_text(l.as_str(), label) {
                    return Some(self);
                }
                proof {
                    lemma_values_of(children@);
                }
                let ghost ch = values_of(children@);
                let mut i: usize = 0;
                while i < children.len()
                    invariant
                        *self is Node,
                        (*self)->Node_1 == *children,
                        ch == values_of(children@),
                        ch.len() == children@.len(),
                        forall|j: int| 0 <= j < ch.len() ==> #[trigger] ch[j] == children@[j]@,
                        first_node(self@, label@) == first_node_in(ch, label@, i as int),
                        i <= children@.len(),
                    decreases children@.len() - i,
                {
                    proof {
                        assert(decreases_to!(*self => (*self)->Node_1));
                    }
                    match children[i].find_node(label) {
                        Some(t) => {
                            return Some(t);
                        },
                        None => {},
                    }
                    i = i + 1;
                }
                None
            },
            Tree::Leaf(_) => None,
        }
    }

    /// The first leaf with a line that contains `content`, in document order.
    pub fn find_leaf(&self, content: &str) -> (r: Option<&Tree>)
        ensures
            match r {
                Some(t) => first_leaf(self@, content@) == Some(t@),
                None => first_leaf(self@, content@) is None,
            },
        decreases self,
    {
        match self {
            Tree::Node(_, children) => {
                proof {
                    lemma_values_of(children@);
                }
                let ghost ch = values_of(children@);
                let mut i: usize = 0;
                while i < children.len()
                    invariant
                        *self is Node,
                        (*self)->Node_1 == *children,
                        ch == values_of(children@),
                        ch.len() == children@.len(),
                        forall|j: int| 0 <= j < ch.len() ==> #[trigger] ch[j] == children@[j]@,
                        first_leaf(self@, content@) == first_leaf_in(ch, content@, i as int),
                        i <= children@.len(),
                    decreases children@.len() - i,
                {
                    proof {
                        assert(decreases_to!(*self => (*self)->Node_1));
                    }
                    match children[i].find_leaf(content) {
                        Some(t) => {
                            return Some(t);
                        },
                        None => {},
                    }
                    i = i + 1;
                }
                None
            },
            Tree::Leaf(lines) => {
                if any_line_contains(lines, content) {
                    Some(self)
                } else {
                    None
                }
            },
        }
    }

    /// Whether some node is labelled `label` or some leaf line contains it.
    pub fn contains(&self, label: &str) -> (r: bool)
        ensures
            r == (path_to_match(self@, label@) is Some),
    {
        self.path_to(label).is_some()
    }

    /// The child indexes leading from this tree's top to the first item, in
    /// document order, that is a node labelled `label` or a leaf with a line
    /// that contains it.
    pub fn path_to(&self, label: &str) -> (r: Option<Vec<usize>>)
        ensures
            match r {
                Some(v) => path_to_match(self@, label@) == Some(v@),
                None => path_to_match(self@, label@) is None,
            },
        decreases self,
    {
        let here = match self {
            Tree::Node(l, _) => same_text(l.as_str(), label),
            Tree::Leaf(lines) => any_line_contains(lines, label),
        };
        if here {
            return Some(Vec::new());
        }
        match self {
            Tree::Node(_, children) => {
                proof {
                    lemma_values_of(children@);
                }
                let ghost ch = values_of(children@);
                let mut i: usize = 0;
                while i < children.len()
                    invariant
                        *self is Node,
                        (*self)->Node_1 == *children,
                        ch == values_of(children@),
                        ch.len() == children@.len(),
                        forall|j: int| 0 <= j < ch.len() ==> #[trigger] ch[j] == children@[j]@,
                        path_to_match(self@, label@) == path_in(ch, label@, i as int),
                        i <= children@.len(),
                    decreases children@.len() - i,
                {
                    proof {
                        assert(decreases_to!(*self => (*self)->Node_1));
                    }
                    match children[i].path_to(label) {
                        Some(mut p) => {
                            p.insert(0, i);
                            return Some(p);
                        },
                        None => {},
                    }
                    i = i + 1;
                }
                None
            },
            Tree::Leaf(_) => None,
        }
    }

    /// Appends the nodes labelled `label`, in document order, to `results`.
    fn collect_nodes<'a>(&'a self, label: &str, results: &mut Vec<&'a Tree>)
        ensures
            final(results)@.map_values(|x: &Tree| x@) == old(results)@.map_values(|x: &Tree| x@)
                + all_nodes(self@, label@),
        decreases self,
    {
        match self {
            Tree::Node(l, children) => {
                let ghost start = results@.map_values(|x: &Tree| x@);
                if same_text(l.as_str(), label) {
                    results.push(self);
                }
                proof {
                    lemma_values_of(children@);
                    assert(results@.map_values(|x: &Tree| x@) =~= start + (if l@ == label@ {
                        seq![self@]
                    } else {
                        Seq::empty()
                    }));
                }
                let ghost mid = results@.map_values(|x: &Tree| x@);
                let ghost ch = values_of(children@);
                let mut i: usize = 0;
                while i < children.len()
                    invariant
                        *self is Node,
                        (*self)->Node_1 == *children,
                        ch == values_of(children@),
                        ch.len() == children@.len(),
                        forall|j: int| 0 <= j < ch.len() ==> #[trigger] ch[j] == children@[j]@,
                        results@.map_values(|x: &Tree| x@) == mid + all_nodes_in(ch, label@, i as int),
                        i <= children@.len(),
                    decreases children@.len() - i,
                {
                    proof {
                        assert(decreases_to!(*self => (*self)->Node_1));
                    }
                    children[i].collect_nodes(label, results);
                    i = i + 1;
                }
                assert(self@ == TreeValue::Node(l@, ch));
            },
            Tree::Leaf(_) => {
                assert(results@.map_values(|x: &Tree| x@) =~= old(results)@.map_values(|x: &Tree| x@) + all_nodes(self@, label@));
            },
        }
    }

    /// The nodes labelled `label`, in document order.
    pub fn find_all_nodes(&self, label: &str) -> (r: Vec<&Tree>)
        ensures
            r@.map_values(|x: &Tree| x@) == all_nodes(self@, label@),
    {
        let mut results: Vec<&Tree> = Vec::new();
        self.collect_nodes(label, &mut results);
        assert(results@.map_values(|x: &Tree| x@) =~= all_nodes(self@, label@));
        results
    }
}

} // verus!

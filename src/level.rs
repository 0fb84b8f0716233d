//! The path of "last child" flags from the root down to an item.
use vstd::prelude::*;

verus! {

/// One flag per ancestor level, root side first: whether the item on that
/// level is the last child of its parent.
pub struct LevelPath(Vec<bool>);

impl View for LevelPath {
    type V = Seq<bool>;

    closed spec fn view(&self) -> Seq<bool> {
        self.0@
    }
}

impl LevelPath {
    /// The empty path of a root.
    pub fn new() -> (r: Self)
        ensures
            r@ == Seq::<bool>::empty(),
    {
        LevelPath(Vec::new())
    }

    /// A path holding the given flags.
    pub fn from_vec(path: Vec<bool>) -> (r: Self)
        ensures
            r@ == path@,
    {
        LevelPath(path)
    }

    /// The depth of the path.
    pub fn len(&self) -> (r: usize)
        ensures
            r == self@.len(),
    {
        self.0.len()
    }

    /// Whether the path is that of a root.
    pub fn is_empty(&self) -> (r: bool)
        ensures
            r == (self@.len() == 0),
    {
        self.0.len() == 0
    }

    /// The flags, root side first.
    pub fn iter(&self) -> (r: Vec<bool>)
        ensures
            r@ == self@,
    {
        self.0.clone()
    }

    /// The flags as a slice, root side first.
    pub fn as_slice(&self) -> (r: &[bool])
        ensures
            r@ == self@,
    {
        self.0.as_slice()
    }

    /// Appends one level.
    pub fn push(&mut self, is_last: bool)
        ensures
            final(self)@ == old(self)@.push(is_last),
    {
        self.0.push(is_last);
    }

    /// A new path one level deeper; `self` is left as it is.
    pub fn with_child(&self, is_last: bool) -> (r: Self)
        ensures
            r@ == self@.push(is_last),
    {
        let mut v = self.0.clone();
        v.push(is_last);
        LevelPath(v)
    }

    /// The path of `item_index`, found by climbing `get_parent` towards the
    /// root and asking `is_last_child` of each item that has a parent.
    pub fn from_parent_chain<F, G>(item_index: usize, get_parent: F, is_last_child: G) -> (r: Self)
        where
            F: Fn(usize) -> Option<usize>,
            G: Fn(usize) -> bool,
        requires
            forall|i: usize| get_parent.requires((i,)),
            forall|i: usize| is_last_child.requires((i,)),
        ensures
            exists|chain: Seq<usize>|
                {
                    &&& chain.len() == r@.len() + 1
                    &&& chain[0] == item_index
                    &&& forall|j: int|
                        0 <= j < r@.len() ==> {
                            &&& get_parent.ensures((#[trigger] chain[j],), Some(chain[j + 1]))
                            &&& is_last_child.ensures((chain[j],), r@[r@.len() - 1 - j])
                        }
                    &&& r@.len() < usize::MAX ==> get_parent.ensures(
                        (chain[r@.len() as int],),
                        None,
                    )
                },
    {
        let mut rev: Vec<bool> = Vec::new();
        let mut current = item_index;
        let ghost mut chain: Seq<usize> = seq![item_index];
        loop
            invariant
                forall|i: usize| get_parent.requires((i,)),
                forall|i: usize| is_last_child.requires((i,)),
                chain.len() == rev@.len() + 1,
                chain[0] == item_index,
                chain.last() == current,
                forall|j: int|
                    0 <= j < rev@.len() ==> {
                        &&& get_parent.ensures((#[trigger] chain[j],), Some(chain[j + 1]))
                        &&& is_last_child.ensures((chain[j],), rev@[j])
                    },
            ensures
                chain.len() == rev@.len() + 1,
                chain[0] == item_index,
                forall|j: int|
                    0 <= j < rev@.len() ==> {
                        &&& get_parent.ensures((#[trigger] chain[j],), Some(chain[j + 1]))
                        &&& is_last_child.ensures((chain[j],), rev@[j])
                    },
                rev@.len() < usize::MAX ==> get_parent.ensures((chain.last(),), None),
            decreases usize::MAX - rev@.len(),
        {
            if rev.len() == usize::MAX {
                break;
            }
            match get_parent(current) {
                Some(p) => {
                    let b = is_last_child(current);
                    rev.push(b);
                    proof {
                        chain = chain.push(p);
                    }
                    current = p;
                },
                None => break,
            }
        }
        let mut path: Vec<bool> = Vec::new();
        let mut j: usize = rev.len();
        while j > 0
            invariant
                j <= rev@.len(),
                path@.len() == rev@.len() - j,
                forall|k: int| 0 <= k < path@.len() ==> path@[k] == rev@[rev@.len() - 1 - k],
            decreases j,
        {
            j = j - 1;
            path.push(rev[j]);
        }
        proof {
            assert forall|k: int| 0 <= k < path@.len() implies rev@[k] == path@[path@.len() - 1 - k] by {
                assert(path@[path@.len() - 1 - k] == rev@[rev@.len() - 1 - (path@.len() - 1 - k)]);
            }
        }
        LevelPath(path)
    }
}

} // verus!

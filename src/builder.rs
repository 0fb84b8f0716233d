//! A builder that opens nodes, adds leaves to the innermost open node, and
//! closes nodes into their parents.
use crate::tree::{lemma_values_of, lemma_values_of_push, values_of, Tree, TreeValue};
use vstd::prelude::*;

verus! {

/// The nodes that are open, outermost first.
pub struct TreeBuilder {
    stack: Vec<Tree>,
}

/// `n` with `c` as its last child; a leaf stays as it is.
pub open spec fn attach(n: TreeValue, c: TreeValue) -> TreeValue {
    match n {
        TreeValue::Node(l, ch) => TreeValue::Node(l, ch.push(c)),
        TreeValue::Leaf(_) => n,
    }
}

/// The open nodes after the innermost one is closed into its parent.
pub open spec fn close_innermost(s: Seq<TreeValue>) -> Seq<TreeValue> {
    s.drop_last().update(s.len() - 2, attach(s[s.len() - 2], s.last()))
}

/// The tree made by closing every open node in turn.
pub open spec fn close_all(s: Seq<TreeValue>) -> TreeValue
    decreases s.len(),
{
    if s.len() <= 1 {
        s[0]
    } else {
        close_all(close_innermost(s))
    }
}

impl View for TreeBuilder {
    type V = Seq<TreeValue>;

    closed spec fn view(&self) -> Seq<TreeValue> {
        values_of(self.stack@)
    }
}

impl TreeBuilder {
    /// Every open item is a node.
    pub closed spec fn wf(&self) -> bool {
        forall|i: int| 0 <= i < self.stack@.len() ==> #[trigger] self.stack@[i] is Node
    }

    /// A builder with nothing open.
    pub fn new() -> (r: Self)
        ensures
            r.wf(),
            r@ == Seq::<TreeValue>::empty(),
    {
        let r = TreeBuilder { stack: Vec::new() };
        proof {
            lemma_values_of(r.stack@);
        }
        r
    }

    /// Opens a node labelled `label` inside the innermost open one.
    pub fn node(&mut self, label: &str) -> (r: &mut Self)
        requires
            old(self).wf(),
        ensures
            r.wf(),
            r@ == old(self)@.push(TreeValue::Node(label@, Seq::empty())),
            *final(self) == *final(r),
    {
        let n = Tree::new_node(label);
        proof {
            lemma_values_of_push(self.stack@, n);
        }
        self.stack.push(n);
        self
    }

    /// Adds `t` as the last child of the innermost open node, if any.
    fn add_to_innermost(&mut self, t: Tree)
        requires
            old(self).wf(),
        ensures
            final(self).wf(),
            old(self)@.len() == 0 ==> final(self)@ == old(self)@,
            old(self)@.len() > 0 ==> final(self)@ == old(self)@.update(
                old(self)@.len() - 1,
                attach(old(self)@.last(), t@),
            ),
    {
        proof {
            lemma_values_of(self.stack@);
        }
        let ghost before = self.stack@;
        match self.stack.pop() {
            Some(top) => match top {
                Tree::Node(label, mut children) => {
                    proof {
                        lemma_values_of_push(children@, t);
                    }
                    children.push(t);
                    let n = Tree::Node(label, children);
                    proof {
                        lemma_values_of_push(self.stack@, n);
                        assert(before.drop_last() == self.stack@);
                        assert(self.stack@.push(n).drop_last() =~= self.stack@);
                        lemma_values_of(self.stack@.push(n));
                        assert(values_of(self.stack@.push(n)) =~= values_of(before).update(
                            before.len() - 1,
                            attach(values_of(before).last(), t@),
                        ));
                    }
                    self.stack.push(n);
                },
                Tree::Leaf(_) => {
                    assert(false);
                },
            },
            None => {},
        }
    }

    /// Adds a leaf of one line to the innermost open node; with none open,
    /// nothing happens.
    pub fn leaf(&mut self, line: &str) -> (r: &mut Self)
        requires
            old(self).wf(),
        ensures
            r.wf(),
            old(self)@.len() == 0 ==> r@ == old(self)@,
            old(self)@.len() > 0 ==> r@ == old(self)@.update(
                old(self)@.len() - 1,
                attach(old(self)@.last(), TreeValue::Leaf(seq![line@])),
            ),
            *final(self) == *final(r),
    {
        self.add_to_innermost(Tree::new_leaf(line));
        self
    }

    /// Adds a leaf of the given lines to the innermost open node; with none
    /// open, nothing happens.
    pub fn leaf_lines(&mut self, lines: Vec<&str>) -> (r: &mut Self)
        requires
            old(self).wf(),
        ensures
            r.wf(),
            old(self)@.len() == 0 ==> r@ == old(self)@,
            old(self)@.len() > 0 ==> r@ == old(self)@.update(
                old(self)@.len() - 1,
                attach(old(self)@.last(), TreeValue::Leaf(lines@.map_values(|s: &str| s@))),
            ),
            *final(self) == *final(r),
    {
        self.add_to_innermost(Tree::new_leaf_lines(lines));
        self
    }

    /// Closes the innermost open node into its parent; the outermost node
    /// stays open.
    pub fn end(&mut self) -> (r: &mut Self)
        requires
            old(self).wf(),
        ensures
            r.wf(),
            old(self)@.len() <= 1 ==> r@ == old(self)@,
            old(self)@.len() > 1 ==> r@ == close_innermost(old(self)@),
            *final(self) == *final(r),
    {
        self.close();
        self
    }

    fn close(&mut self)
        requires
            old(self).wf(),
        ensures
            final(self).wf(),
            old(self)@.len() <= 1 ==> final(self)@ == old(self)@,
            old(self)@.len() > 1 ==> final(self)@ == close_innermost(old(self)@),
    {
        proof {
            lemma_values_of(self.stack@);
        }
        if self.stack.len() > 1 {
            let ghost before = self@;
            let child = self.stack.pop().unwrap();
            proof {
                assert(self.stack@ =~= old(self).stack@.drop_last());
                lemma_values_of(self.stack@);
                assert(values_of(self.stack@) =~= before.drop_last());
                assert(child@ == before.last());
            }
            self.add_to_innermost(child);
            proof {
                assert(before.drop_last().last() == before[before.len() - 2]);
            }
        }
    }

    /// The tree made by closing every open node; at least one must be open.
    pub fn build(self) -> (r: Tree)
        requires
            self.wf(),
            self@.len() > 0,
        ensures
            r@ == close_all(self@),
    {
        let mut b = self;
        while b.stack.len() > 1
            invariant
                b.wf(),
                b@.len() > 0,
                close_all(b@) == close_all(self@),
            decreases b@.len(),
        {
            proof {
                lemma_values_of(b.stack@);
            }
            b.close();
            proof {
                lemma_values_of(b.stack@);
            }
        }
        proof {
            lemma_values_of(b.stack@);
        }
        let r = b.stack.pop().unwrap();
        r
    }
}

impl Default for TreeBuilder {
    fn default() -> (r: Self)
        ensures
            r.wf(),
            r@ == Seq::<TreeValue>::empty(),
    {
        Self::new()
    }
}

} // verus!

//! Lazy in-order iteration: an explicit stack holds the path whose left
//! spines have been pushed; each step yields the top node's element and
//! descends into its right subtree.

use vstd::prelude::*;

use crate::btree::Link;
use crate::btree::Node;
use crate::btree::RBBTree;
use crate::btree::lemma_tree_parts;
use crate::btree::seq_of;
use crate::btree::size_of;

verus! {

/// The in-order sequence of a borrowed subtree.
pub(crate) open spec fn pending_of(x: Option<&Box<Node>>) -> Seq<u64> {
    match x {
        None => Seq::empty(),
        Some(b) => seq_of(Some(*b)),
    }
}

/// Node count of a borrowed subtree; the measure for the spine descent.
pub(crate) open spec fn pending_size(x: Option<&Box<Node>>) -> nat {
    match x {
        None => 0,
        Some(b) => size_of(Some(*b)),
    }
}

/// What the stack still owes, top entry first: each entry's element
/// followed by its right subtree.
pub(crate) open spec fn stack_seq(s: Seq<&Box<Node>>) -> Seq<u64>
    decreases s.len(),
{
    if s.len() == 0 {
        Seq::empty()
    } else {
        seq![s.last().content] + seq_of(s.last().right) + stack_seq(s.drop_last())
    }
}

/// Iterator over a tree, yielding references to its elements in
/// non-decreasing order.  It borrows the tree, so the tree cannot be
/// mutated while an iterator is alive.  Exhausted iterators stay
/// exhausted; a fresh one can be created at any time.
pub struct RBBTreeIterator<'a> {
    pub(crate) x: Option<&'a Box<Node>>,
    pub(crate) stack: Vec<&'a Box<Node>>,
}

impl<'a> RBBTreeIterator<'a> {
    /// The elements not yet yielded, in the order they will come.
    pub closed spec fn remaining(self) -> Seq<u64> {
        pending_of(self.x) + stack_seq(self.stack@)
    }

    /// Yield the next element in order, or `None` once the iteration is
    /// exhausted.
    pub fn next(&mut self) -> (r: Option<&'a u64>)
        ensures
            match r {
                Some(v) => old(self).remaining().len() > 0 && *v == old(self).remaining()[0]
                    && final(self).remaining() == old(self).remaining().skip(1),
                None => old(self).remaining().len() == 0 && final(self).remaining() == old(
                    self,
                ).remaining(),
            },
    {
        // push the left spine of the current subtree
        while self.x.is_some()
            invariant
                pending_of(self.x) + stack_seq(self.stack@) == old(self).remaining(),
            decreases pending_size(self.x),
        {
            let n = self.x.unwrap();
            let ghost s0 = self.stack@;
            self.stack.push(n);
            self.x = n.left.as_ref();
            proof {
                assert(self.stack@.last() == n);
                assert(self.stack@.drop_last() =~= s0);
                assert(stack_seq(self.stack@) == seq![n.content] + seq_of(n.right) + stack_seq(
                    s0,
                ));
                assert(seq_of(Some(*n)) == seq_of(n.left) + seq![n.content] + seq_of(n.right));
                assert(pending_of(self.x) == seq_of(n.left));
                assert(pending_of(self.x) + stack_seq(self.stack@) =~= seq_of(Some(*n))
                    + stack_seq(s0));
            }
        }
        let popped = self.stack.pop();
        match popped {
            Some(n) => {
                let ghost s1 = old(self).remaining();
                proof {
                    assert(stack_seq(self.stack@.push(n)) == seq![n.content] + seq_of(n.right)
                        + stack_seq(self.stack@)) by {
                        assert(self.stack@.push(n).drop_last() =~= self.stack@);
                        assert(self.stack@.push(n).last() == n);
                    }
                    assert(s1 =~= seq![n.content] + seq_of(n.right) + stack_seq(self.stack@));
                }
                self.x = n.right.as_ref();
                proof {
                    assert(pending_of(self.x) == seq_of(n.right));
                    assert(self.remaining() =~= s1.skip(1));
                }
                Some(&n.content)
            },
            None => {
                proof {
                    assert(self.remaining() =~= Seq::<u64>::empty());
                }
                None
            },
        }
    }
}

impl RBBTree {
    /// A fresh iterator over the tree's elements in non-decreasing order.
    pub fn iter<'a>(&'a self) -> (it: RBBTreeIterator<'a>)
        ensures
            it.remaining() == self@,
    {
        proof {
            lemma_tree_parts(*self);
        }
        let it = RBBTreeIterator { x: self.root.as_ref(), stack: Vec::new() };
        proof {
            assert(it.stack@.len() == 0);
            assert(it.remaining() =~= seq_of(self.root));
        }
        it
    }
}

} // verus!

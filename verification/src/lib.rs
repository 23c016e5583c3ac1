//! An ordered container backed by a red-black binary search tree.
//!
//! The tree stores `u64` elements, keeps duplicates (ties are ordered to the
//! right), and offers insertion, removal, in-order iteration and a structural
//! invariant checker. Every operation is verified: the contracts speak of the
//! tree's view, the in-order sequence of its elements, which is always sorted.

use vstd::prelude::*;

mod btree;
mod check;
mod insert;
mod iter;
pub mod laws;
mod remove;
mod rotate;

pub use btree::Allocator;
pub use btree::Global;
pub use btree::RBBTree;
pub use check::DumpEntry;
pub use iter::RBBTreeIterator;

verus! {

/// A sequence is sorted in non-decreasing order.
pub open spec fn sorted(s: Seq<u64>) -> bool {
    forall|i: int, j: int| 0 <= i <= j < s.len() ==> s[i] <= s[j]
}

} // verus!

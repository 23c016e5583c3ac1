//! Rotation primitives: the local restructurings that both fix-up
//! procedures are built from.  A rotation re-parents two adjacent nodes,
//! hands the displaced middle subtree over to the vacated slot, and leaves
//! every color unchanged: the caller recolors as its case requires.

use vstd::prelude::*;

use crate::btree::Link;
use crate::btree::Node;
use crate::btree::seq_of;

verus! {

/// Rotate the pair `(high.left, high)` to the right: the left child
/// becomes the parent and `high` its right child, the middle subtree
/// moving over.  The in-order sequence is unchanged.
pub(crate) fn rotate_right(high: Box<Node>) -> (r: Box<Node>)
    requires
        high.left.is_some(),
    ensures
        ({
            let low = high.left.unwrap();
            &&& r.content == low.content
            &&& r.color == low.color
            &&& r.left == low.left
            &&& r.right.is_some()
            &&& r.right.unwrap().content == high.content
            &&& r.right.unwrap().color == high.color
            &&& r.right.unwrap().left == low.right
            &&& r.right.unwrap().right == high.right
        }),
        seq_of(Some(r)) == seq_of(Some(high)),
{
    let ghost orig = high;
    let mut high = high;
    let mut low = high.left.take().unwrap();
    high.left = low.right.take();
    low.right = Some(high);
    proof {
        let ghost olow = orig.left.unwrap();
        assert(seq_of(Some(orig)) == seq_of(Some(olow)) + seq![orig.content] + seq_of(orig.right));
        assert(seq_of(Some(olow)) == seq_of(olow.left) + seq![olow.content] + seq_of(olow.right));
        let ghost nh = low.right.unwrap();
        assert(seq_of(Some(low)) == seq_of(olow.left) + seq![olow.content] + seq_of(Some(nh)));
        assert(seq_of(Some(nh)) == seq_of(olow.right) + seq![orig.content] + seq_of(orig.right));
        assert(seq_of(Some(low)) =~= seq_of(Some(orig)));
    }
    low
}

/// Rotate the pair `(high.right, high)` to the left: the mirror image of
/// `rotate_right`.
pub(crate) fn rotate_left(high: Box<Node>) -> (r: Box<Node>)
    requires
        high.right.is_some(),
    ensures
        ({
            let low = high.right.unwrap();
            &&& r.content == low.content
            &&& r.color == low.color
            &&& r.right == low.right
            &&& r.left.is_some()
            &&& r.left.unwrap().content == high.content
            &&& r.left.unwrap().color == high.color
            &&& r.left.unwrap().right == low.left
            &&& r.left.unwrap().left == high.left
        }),
        seq_of(Some(r)) == seq_of(Some(high)),
{
    let ghost orig = high;
    let mut high = high;
    let mut low = high.right.take().unwrap();
    high.right = low.left.take();
    low.left = Some(high);
    proof {
        let ghost olow = orig.right.unwrap();
        assert(seq_of(Some(orig)) == seq_of(orig.left) + seq![orig.content] + seq_of(Some(olow)));
        assert(seq_of(Some(olow)) == seq_of(olow.left) + seq![olow.content] + seq_of(olow.right));
        let ghost nh = low.left.unwrap();
        assert(seq_of(Some(low)) == seq_of(Some(nh)) + seq![olow.content] + seq_of(olow.right));
        assert(seq_of(Some(nh)) == seq_of(orig.left) + seq![orig.content] + seq_of(olow.left));
        assert(seq_of(Some(low)) =~= seq_of(Some(orig)));
    }
    low
}

} // verus!

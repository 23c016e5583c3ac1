//! The general laws of the tree, stated over its view.  Each public
//! operation's contract pins the new view exactly; these lemmas spell out
//! what follows for whole runs of operations: the view stays sorted, an
//! insertion adds exactly one copy of its value, a removal takes exactly
//! one away, and inserting a batch of values then removing the same batch
//! in any order leaves the tree empty.

use vstd::prelude::*;

use vstd::multiset::Multiset;

use vstd::seq_lib::to_multiset_contains;
use vstd::seq_lib::to_multiset_insert;
use vstd::seq_lib::to_multiset_len;
use vstd::seq_lib::to_multiset_remove;

use crate::btree::RBBTree;
use crate::btree::count_le;
use crate::btree::count_lt;
use crate::btree::insert_seq;
use crate::btree::lemma_bst_sorted;
use crate::btree::lemma_count_bounds;
use crate::btree::lemma_count_lt_lt_len;
use crate::btree::lemma_sorted_counts;
use crate::btree::lemma_tree_parts;
use crate::btree::remove_once;
use crate::sorted;

verus! {

/// Order preservation: the view of every well-formed tree is sorted in
/// non-decreasing order, so `iter()` yields its elements in
/// non-decreasing order (each `next` takes the front of what remains).
pub proof fn lemma_view_sorted(tree: RBBTree)
    requires
        tree.wf(),
    ensures
        sorted(tree@),
{
    lemma_tree_parts(tree);
    lemma_bst_sorted(tree.root);
}

/// A sorted sequence stays sorted when its front element is yielded.
pub proof fn lemma_sorted_skip_one(s: Seq<u64>)
    requires
        sorted(s),
        s.len() > 0,
    ensures
        sorted(s.skip(1)),
        forall|i: int| 0 <= i < s.skip(1).len() ==> s[0] <= #[trigger] s.skip(1)[i],
{
    assert forall|i: int, j: int| 0 <= i <= j < s.skip(1).len() implies s.skip(1)[i] <= s.skip(
        1,
    )[j] by {
        assert(s.skip(1)[i] == s[i + 1]);
        assert(s.skip(1)[j] == s[j + 1]);
    }
    assert forall|i: int| 0 <= i < s.skip(1).len() implies s[0] <= #[trigger] s.skip(1)[i] by {
        assert(s.skip(1)[i] == s[i + 1]);
    }
}

/// What insertion does to the bag of elements: exactly one copy of the
/// value is added, nothing else changes, and order is preserved.
pub proof fn lemma_insert_seq_multiset(s: Seq<u64>, v: u64)
    ensures
        insert_seq(s, v).to_multiset() == s.to_multiset().insert(v),
        insert_seq(s, v).len() == s.len() + 1,
        sorted(s) ==> sorted(insert_seq(s, v)),
{
    lemma_count_bounds(s, v);
    let k = count_le(s, v);
    assert(insert_seq(s, v) =~= s.insert(k, v));
    to_multiset_insert(s, k, v);
    if sorted(s) {
        lemma_sorted_counts(s, v);
        let t = insert_seq(s, v);
        assert forall|i: int, j: int| 0 <= i <= j < t.len() implies t[i] <= t[j] by {
            assert(t[i] == if i < k {
                s[i]
            } else if i == k {
                v
            } else {
                s[i - 1]
            });
            assert(t[j] == if j < k {
                s[j]
            } else if j == k {
                v
            } else {
                s[j - 1]
            });
        }
    }
}

/// What removal does to the bag of elements: when the value occurs, one
/// copy of it goes and nothing else changes, and order is preserved; when
/// it does not occur, the sequence is untouched.
pub proof fn lemma_remove_once_multiset(s: Seq<u64>, v: u64)
    requires
        sorted(s),
    ensures
        s.contains(v) ==> remove_once(s, v).to_multiset() == s.to_multiset().remove(v),
        s.contains(v) ==> remove_once(s, v).len() == s.len() - 1,
        !s.contains(v) ==> remove_once(s, v) == s,
        sorted(remove_once(s, v)),
{
    if s.contains(v) {
        lemma_count_bounds(s, v);
        lemma_count_lt_lt_len(s, v);
        let k = count_lt(s, v);
        assert(remove_once(s, v) =~= s.remove(k));
        lemma_sorted_counts(s, v);
        assert(s[k] == v);
        to_multiset_remove(s, k);
        assert(s.remove(k).to_multiset() == s.to_multiset().remove(v));
        let t = remove_once(s, v);
        assert forall|i: int, j: int| 0 <= i <= j < t.len() implies t[i] <= t[j] by {
            assert(t[i] == if i < k {
                s[i]
            } else {
                s[i + 1]
            });
            assert(t[j] == if j < k {
                s[j]
            } else {
                s[j + 1]
            });
        }
    }
}

/// The view after a whole run of insertions, first element first.
pub open spec fn apply_inserts(s: Seq<u64>, xs: Seq<u64>) -> Seq<u64>
    decreases xs.len(),
{
    if xs.len() == 0 {
        s
    } else {
        apply_inserts(insert_seq(s, xs.first()), xs.drop_first())
    }
}

/// The view after a whole run of removals, first element first.
pub open spec fn apply_removes(s: Seq<u64>, ys: Seq<u64>) -> Seq<u64>
    decreases ys.len(),
{
    if ys.len() == 0 {
        s
    } else {
        apply_removes(remove_once(s, ys.first()), ys.drop_first())
    }
}

/// Every removal in the run finds its value present (so `remove` returns
/// `true` each time).
pub open spec fn removes_all_found(s: Seq<u64>, ys: Seq<u64>) -> bool
    decreases ys.len(),
{
    if ys.len() == 0 {
        true
    } else {
        s.contains(ys.first()) && removes_all_found(remove_once(s, ys.first()), ys.drop_first())
    }
}

/// A run of insertions adds exactly the bag of inserted values and keeps
/// the view sorted.
pub proof fn lemma_apply_inserts(s: Seq<u64>, xs: Seq<u64>)
    requires
        sorted(s),
    ensures
        sorted(apply_inserts(s, xs)),
        apply_inserts(s, xs).to_multiset() == s.to_multiset().add(xs.to_multiset()),
        apply_inserts(s, xs).len() == s.len() + xs.len(),
    decreases xs.len(),
{
    broadcast use vstd::multiset::group_multiset_axioms;

    to_multiset_len(xs);
    to_multiset_len(s);
    to_multiset_len(apply_inserts(s, xs));
    if xs.len() == 0 {
        assert(xs.to_multiset() =~= Multiset::<u64>::empty());
        assert(s.to_multiset().add(xs.to_multiset()) =~= s.to_multiset());
    } else {
        let v = xs.first();
        lemma_insert_seq_multiset(s, v);
        lemma_apply_inserts(insert_seq(s, v), xs.drop_first());
        assert(xs.to_multiset() =~= xs.drop_first().to_multiset().insert(v)) by {
            assert(xs =~= seq![v] + xs.drop_first());
            assert(xs.drop_first().insert(0, v) =~= xs);
            to_multiset_insert(xs.drop_first(), 0, v);
        }
        assert(s.to_multiset().insert(v).add(xs.drop_first().to_multiset())
            =~= s.to_multiset().add(xs.to_multiset()));
    }
}

/// A run of removals that covers exactly the bag of present values finds
/// every value and leaves the view empty.
pub proof fn lemma_apply_removes_to_empty(s: Seq<u64>, ys: Seq<u64>)
    requires
        sorted(s),
        s.to_multiset() == ys.to_multiset(),
    ensures
        removes_all_found(s, ys),
        apply_removes(s, ys) == Seq::<u64>::empty(),
    decreases ys.len(),
{
    broadcast use vstd::multiset::group_multiset_axioms;

    to_multiset_len(s);
    to_multiset_len(ys);
    if ys.len() == 0 {
        assert(s.len() == 0);
        assert(s =~= Seq::<u64>::empty());
    } else {
        let v = ys.first();
        assert(ys.contains(v));
        to_multiset_contains(ys, v);
        to_multiset_contains(s, v);
        assert(s.contains(v));
        lemma_remove_once_multiset(s, v);
        assert(ys.to_multiset() =~= ys.drop_first().to_multiset().insert(v)) by {
            assert(ys.drop_first().insert(0, v) =~= ys);
            to_multiset_insert(ys.drop_first(), 0, v);
        }
        assert(remove_once(s, v).to_multiset() =~= ys.drop_first().to_multiset());
        lemma_apply_removes_to_empty(remove_once(s, v), ys.drop_first());
    }
}

/// Round trip, and insert/remove symmetry: inserting the values of `xs`
/// into an empty tree in any order, then removing the values of `ys` in
/// any order, where `ys` is a permutation of `xs` (in particular when
/// both list the same distinct values), finds every removed value and
/// leaves the view empty — so `len()` is `0` and a fresh iterator yields
/// nothing.  Every intermediate view in the run is sorted, and the tree's
/// own invariants hold after every step by the operations' contracts.
pub proof fn lemma_round_trip(xs: Seq<u64>, ys: Seq<u64>)
    requires
        xs.to_multiset() == ys.to_multiset(),
    ensures
        removes_all_found(apply_inserts(Seq::<u64>::empty(), xs), ys),
        apply_removes(apply_inserts(Seq::<u64>::empty(), xs), ys) == Seq::<u64>::empty(),
{
    broadcast use vstd::multiset::group_multiset_axioms;

    let s = apply_inserts(Seq::<u64>::empty(), xs);
    lemma_apply_inserts(Seq::<u64>::empty(), xs);
    assert(Seq::<u64>::empty().to_multiset() =~= Multiset::<u64>::empty()) by {
        assert forall|a: u64| Seq::<u64>::empty().to_multiset().count(a) == 0 by {
            to_multiset_contains(Seq::<u64>::empty(), a);
        }
    }
    assert(s.to_multiset() =~= ys.to_multiset());
    lemma_apply_removes_to_empty(s, ys);
}

} // verus!

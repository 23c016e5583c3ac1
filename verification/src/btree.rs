//! The tree structure, its mathematical model and the basic operations.

use vstd::prelude::*;

verus! {

/// Color tag of a node: every node is either red or black.
#[derive(Clone, Copy, PartialEq, Eq, Structural, Debug)]
pub(crate) enum Color {
    Red,
    Black,
}

/// One node of the tree: an element, a color and the two owned children.
pub(crate) struct Node {
    pub(crate) content: u64,
    pub(crate) color: Color,
    pub(crate) left: Option<Box<Node>>,
    pub(crate) right: Option<Box<Node>>,
}

/// An optional owned subtree; `None` is the absent child.
pub(crate) type Link = Option<Box<Node>>;

/// Red-black binary search tree over `u64`, with duplicates kept
/// (equal elements are ordered to the right).
///
/// Each node owns its children outright, so a link is an `Option` rather
/// than a sentinel index into a shared arena: a child has exactly one
/// parent by construction, there are no slots to relocate or
/// back-pointers to repair on removal, and freeing happens with the
/// boxes.  The cost is one allocation per node instead of a contiguous
/// buffer.
pub struct RBBTree {
    pub(crate) root: Link,
    pub(crate) n: usize,
}

/// In-order sequence of the elements of a subtree.
pub(crate) open spec fn seq_of(t: Link) -> Seq<u64>
    decreases t,
{
    match t {
        None => Seq::empty(),
        Some(node) => seq_of(node.left) + seq![node.content] + seq_of(node.right),
    }
}

/// Number of nodes of a subtree.
pub(crate) open spec fn size_of(t: Link) -> nat
    decreases t,
{
    match t {
        None => 0,
        Some(node) => size_of(node.left) + 1 + size_of(node.right),
    }
}

/// The root of `t` is a red node.
pub(crate) open spec fn is_red(t: Link) -> bool {
    match t {
        None => false,
        Some(node) => node.color == Color::Red,
    }
}

/// Every element of `s` is at most `v`.
pub(crate) open spec fn all_le(s: Seq<u64>, v: u64) -> bool {
    forall|i: int| 0 <= i < s.len() ==> #[trigger] s[i] <= v
}

/// Every element of `s` is at least `v`.
pub(crate) open spec fn all_ge(s: Seq<u64>, v: u64) -> bool {
    forall|i: int| 0 <= i < s.len() ==> v <= #[trigger] s[i]
}

/// Binary-search-tree ordering: in every node, the elements of the left
/// subtree are at most the node's element, those of the right subtree at
/// least it (duplicates may sit on either side after rotations).
pub(crate) open spec fn bst(t: Link) -> bool
    decreases t,
{
    match t {
        None => true,
        Some(node) => {
            &&& bst(node.left)
            &&& bst(node.right)
            &&& all_le(seq_of(node.left), node.content)
            &&& all_ge(seq_of(node.right), node.content)
        },
    }
}

/// Number of black nodes on every path from the root of `t` down to an
/// absent-child position, the root included.
pub(crate) open spec fn black_height(t: Link) -> nat
    decreases t,
{
    match t {
        None => 0,
        Some(node) => black_height(node.left) + if node.color == Color::Black {
            1nat
        } else {
            0nat
        },
    }
}

/// All paths of the subtree pass through the same number of black nodes.
pub(crate) open spec fn balanced(t: Link) -> bool
    decreases t,
{
    match t {
        None => true,
        Some(node) => {
            &&& black_height(node.left) == black_height(node.right)
            &&& balanced(node.left)
            &&& balanced(node.right)
        },
    }
}

/// No red node has a red child.
pub(crate) open spec fn no_red_red(t: Link) -> bool
    decreases t,
{
    match t {
        None => true,
        Some(node) => {
            &&& node.color == Color::Red ==> !is_red(node.left) && !is_red(node.right)
            &&& no_red_red(node.left)
            &&& no_red_red(node.right)
        },
    }
}

/// Every red-black invariant of a subtree: ordering, equal black heights
/// on all paths, and no two consecutive red nodes.
pub(crate) open spec fn rb_valid(t: Link) -> bool {
    bst(t) && balanced(t) && no_red_red(t)
}

/// Like `no_red_red`, except that the edge from a red root to one (and only
/// one) of its children may be red-red.  This is the transient state that
/// insertion fix-up repairs while climbing back toward the root.
pub(crate) open spec fn near_rb(t: Link) -> bool {
    match t {
        None => true,
        Some(node) => {
            &&& no_red_red(node.left)
            &&& no_red_red(node.right)
            &&& node.color == Color::Red ==> !(is_red(node.left) && is_red(node.right))
        },
    }
}

/// How many elements of `s` are at most `v`.
pub open spec fn count_le(s: Seq<u64>, v: u64) -> int
    decreases s.len(),
{
    if s.len() == 0 {
        0
    } else {
        count_le(s.drop_last(), v) + if s.last() <= v {
            1int
        } else {
            0int
        }
    }
}

/// How many elements of `s` are strictly below `v`.
pub open spec fn count_lt(s: Seq<u64>, v: u64) -> int
    decreases s.len(),
{
    if s.len() == 0 {
        0
    } else {
        count_lt(s.drop_last(), v) + if s.last() < v {
            1int
        } else {
            0int
        }
    }
}

/// `s` with `v` inserted behind every element that is at most `v`.  On a
/// sorted sequence this is exactly what inserting into the tree does: equal
/// elements keep their place and the new one goes after them.
pub open spec fn insert_seq(s: Seq<u64>, v: u64) -> Seq<u64> {
    s.take(count_le(s, v)) + seq![v] + s.skip(count_le(s, v))
}

/// `s` with its first occurrence of `v` taken out, or `s` itself when `v`
/// does not occur.  On a sorted sequence the first occurrence sits right
/// after the elements strictly below `v`.
pub open spec fn remove_once(s: Seq<u64>, v: u64) -> Seq<u64> {
    if s.contains(v) {
        s.take(count_lt(s, v)) + s.skip(count_lt(s, v) + 1)
    } else {
        s
    }
}

impl Node {
    /// A fresh node: always red, with absent children (the very first node
    /// of a tree is turned black by its caller right away).
    pub(crate) fn new(content: u64) -> (r: Node)
        ensures
            r.content == content,
            r.color == Color::Red,
            r.left.is_none(),
            r.right.is_none(),
    {
        Node { content, color: Color::Red, left: None, right: None }
    }
}

/// Whether the root of this subtree is a red node.
pub(crate) fn link_is_red(t: &Link) -> (r: bool)
    ensures
        r == is_red(*t),
{
    match t {
        Some(node) => node.color == Color::Red,
        None => false,
    }
}

/// Marker for a custom backing allocator.  The tree's nodes are owned
/// boxes, so an allocator carries no state here; the trait is kept so
/// that callers written against an allocator-aware interface still
/// compile.
pub trait Allocator {

}

/// The default allocator marker.
pub struct Global {}

impl Allocator for Global {

}

impl RBBTree {
    /// The tree seen as its in-order sequence of elements.
    pub closed spec fn view(self) -> Seq<u64> {
        seq_of(self.root)
    }

    /// Well-formedness: the red-black invariants hold, the root is black
    /// (or the tree is empty), and `n` counts the live nodes.
    pub closed spec fn wf(self) -> bool {
        &&& rb_valid(self.root)
        &&& !is_red(self.root)
        &&& self.n == size_of(self.root)
    }

    /// Create a new empty tree.
    pub fn new() -> (tree: Self)
        ensures
            tree.wf(),
            tree@ == Seq::<u64>::empty(),
    {
        RBBTree { root: None, n: 0 }
    }

    /// Create a new empty tree with a custom allocator marker; the
    /// marker is only a tag and the tree behaves exactly as one from
    /// `new`.
    pub fn new_in<A: Allocator>(alloc: A) -> (tree: Self)
        ensures
            tree.wf(),
            tree@ == Seq::<u64>::empty(),
    {
        let _ = alloc;
        RBBTree { root: None, n: 0 }
    }

    /// Number of elements currently stored.
    pub fn len(&self) -> (r: usize)
        requires
            self.wf(),
        ensures
            r == self@.len(),
    {
        proof {
            lemma_size_is_seq_len(self.root);
        }
        self.n
    }
}

/// What the closed predicates of the tree stand for, for use by the
/// operations in the sibling modules.
pub(crate) proof fn lemma_tree_parts(t: RBBTree)
    ensures
        t.wf() == (rb_valid(t.root) && !is_red(t.root) && t.n == size_of(t.root)),
        t@ == seq_of(t.root),
{
}

/// Two nodes that differ at most in color hold the same elements in the
/// same shape.
pub(crate) proof fn lemma_recolor(a: Box<Node>, b: Box<Node>)
    requires
        a.content == b.content,
        a.left == b.left,
        a.right == b.right,
    ensures
        seq_of(Some(a)) == seq_of(Some(b)),
        bst(Some(a)) == bst(Some(b)),
        size_of(Some(a)) == size_of(Some(b)),
{
}

/// A subtree without consecutive red nodes is in particular nearly so.
pub(crate) proof fn lemma_nrr_near(t: Link)
    requires
        no_red_red(t),
    ensures
        near_rb(t),
{
    match t {
        None => {},
        Some(node) => {},
    }
}

/// A subtree holds as many nodes as its in-order sequence has elements.
pub(crate) proof fn lemma_size_is_seq_len(t: Link)
    ensures
        size_of(t) == seq_of(t).len(),
    decreases t,
{
    match t {
        None => {},
        Some(node) => {
            lemma_size_is_seq_len(node.left);
            lemma_size_is_seq_len(node.right);
        },
    }
}

/// A path can pass through at most as many black nodes as the subtree
/// has nodes.
pub(crate) proof fn lemma_bh_le_size(t: Link)
    ensures
        black_height(t) <= size_of(t),
    decreases t,
{
    match t {
        None => {},
        Some(node) => {
            lemma_bh_le_size(node.left);
        },
    }
}

/// `count_le` splits over concatenation.
pub(crate) proof fn lemma_count_le_concat(a: Seq<u64>, b: Seq<u64>, v: u64)
    ensures
        count_le(a + b, v) == count_le(a, v) + count_le(b, v),
    decreases b.len(),
{
    if b.len() == 0 {
        assert(a + b =~= a);
    } else {
        assert((a + b).drop_last() =~= a + b.drop_last());
        assert((a + b).last() == b.last());
        lemma_count_le_concat(a, b.drop_last(), v);
    }
}

/// `count_lt` splits over concatenation.
pub(crate) proof fn lemma_count_lt_concat(a: Seq<u64>, b: Seq<u64>, v: u64)
    ensures
        count_lt(a + b, v) == count_lt(a, v) + count_lt(b, v),
    decreases b.len(),
{
    if b.len() == 0 {
        assert(a + b =~= a);
    } else {
        assert((a + b).drop_last() =~= a + b.drop_last());
        assert((a + b).last() == b.last());
        lemma_count_lt_concat(a, b.drop_last(), v);
    }
}

/// `count_le` lies between 0 and the length; so does `count_lt`, which
/// never exceeds it.
pub(crate) proof fn lemma_count_bounds(s: Seq<u64>, v: u64)
    ensures
        0 <= count_lt(s, v) <= count_le(s, v) <= s.len(),
    decreases s.len(),
{
    if s.len() > 0 {
        lemma_count_bounds(s.drop_last(), v);
    }
}

/// On a sequence whose elements all exceed `v`, nothing counts as `<= v`.
pub(crate) proof fn lemma_count_le_none(s: Seq<u64>, v: u64)
    requires
        forall|i: int| 0 <= i < s.len() ==> v < #[trigger] s[i],
    ensures
        count_le(s, v) == 0,
    decreases s.len(),
{
    if s.len() > 0 {
        lemma_count_le_none(s.drop_last(), v);
    }
}

/// On a sequence of elements all at most `v`, everything counts.
pub(crate) proof fn lemma_count_le_full(s: Seq<u64>, v: u64)
    requires
        all_le(s, v),
    ensures
        count_le(s, v) == s.len(),
    decreases s.len(),
{
    if s.len() > 0 {
        lemma_count_le_full(s.drop_last(), v);
    }
}

/// On a sequence of elements all at least `v`, nothing is strictly below.
pub(crate) proof fn lemma_count_lt_none(s: Seq<u64>, v: u64)
    requires
        all_ge(s, v),
    ensures
        count_lt(s, v) == 0,
    decreases s.len(),
{
    if s.len() > 0 {
        lemma_count_lt_none(s.drop_last(), v);
    }
}

/// On a sequence of elements all strictly below `v`, everything counts.
pub(crate) proof fn lemma_count_lt_full(s: Seq<u64>, v: u64)
    requires
        forall|i: int| 0 <= i < s.len() ==> #[trigger] s[i] < v,
    ensures
        count_lt(s, v) == s.len(),
    decreases s.len(),
{
    if s.len() > 0 {
        lemma_count_lt_full(s.drop_last(), v);
    }
}

/// When `v` occurs in `s`, at least that occurrence is not strictly below
/// `v`, so `count_lt` stays below the length.
pub(crate) proof fn lemma_count_lt_lt_len(s: Seq<u64>, v: u64)
    requires
        s.contains(v),
    ensures
        count_lt(s, v) < s.len(),
    decreases s.len(),
{
    lemma_count_bounds(s.drop_last(), v);
    if s.last() != v {
        assert(s.drop_last().contains(v)) by {
            let i = choose|i: int| 0 <= i < s.len() && s[i] == v;
            assert(s.drop_last()[i] == v);
        }
        lemma_count_lt_lt_len(s.drop_last(), v);
    }
}

/// In a sorted sequence the elements strictly below `v` form exactly the
/// prefix of length `count_lt`, and those at most `v` the prefix of length
/// `count_le`.
pub(crate) proof fn lemma_sorted_counts(s: Seq<u64>, v: u64)
    requires
        crate::sorted(s),
    ensures
        forall|i: int| 0 <= i < count_lt(s, v) ==> #[trigger] s[i] < v,
        forall|i: int| count_lt(s, v) <= i < s.len() ==> v <= #[trigger] s[i],
        forall|i: int| 0 <= i < count_le(s, v) ==> #[trigger] s[i] <= v,
        forall|i: int| count_le(s, v) <= i < s.len() ==> v < #[trigger] s[i],
    decreases s.len(),
{
    lemma_count_bounds(s, v);
    if s.len() > 0 {
        let d = s.drop_last();
        lemma_sorted_counts(d, v);
        lemma_count_bounds(d, v);
        assert(forall|i: int| 0 <= i < s.len() - 1 ==> #[trigger] s[i] == d[i]);
        if s.last() < v {
            assert(count_lt(d, v) == s.len() - 1) by {
                if count_lt(d, v) < s.len() - 1 {
                    assert(v <= d[s.len() - 2]);
                    assert(s[s.len() - 2] <= s[s.len() - 1]);
                }
            }
        }
        if s.last() <= v {
            assert(count_le(d, v) == s.len() - 1) by {
                if count_le(d, v) < s.len() - 1 {
                    assert(v < d[s.len() - 2]);
                    assert(s[s.len() - 2] <= s[s.len() - 1]);
                }
            }
        }
        assert forall|i: int| 0 <= i < count_lt(s, v) implies #[trigger] s[i] < v by {
            if i < s.len() - 1 {
                assert(s[i] == d[i]);
            }
        }
        assert forall|i: int| count_lt(s, v) <= i < s.len() implies v <= #[trigger] s[i] by {
            if i < s.len() - 1 {
                assert(s[i] == d[i]);
            }
        }
        assert forall|i: int| 0 <= i < count_le(s, v) implies #[trigger] s[i] <= v by {
            if i < s.len() - 1 {
                assert(s[i] == d[i]);
            }
        }
        assert forall|i: int| count_le(s, v) <= i < s.len() implies v < #[trigger] s[i] by {
            if i < s.len() - 1 {
                assert(s[i] == d[i]);
            }
        }
    }
}

/// An upper bound holds of a concatenation exactly when it holds of the
/// parts.
pub(crate) proof fn lemma_all_le_split(a: Seq<u64>, b: Seq<u64>, v: u64)
    ensures
        all_le(a + b, v) <==> (all_le(a, v) && all_le(b, v)),
{
    if all_le(a, v) && all_le(b, v) {
        assert forall|i: int| 0 <= i < (a + b).len() implies #[trigger] (a + b)[i] <= v by {
            if i < a.len() {
                assert((a + b)[i] == a[i]);
            } else {
                assert((a + b)[i] == b[i - a.len()]);
            }
        }
    }
    if all_le(a + b, v) {
        assert forall|i: int| 0 <= i < a.len() implies #[trigger] a[i] <= v by {
            assert((a + b)[i] == a[i]);
        }
        assert forall|i: int| 0 <= i < b.len() implies #[trigger] b[i] <= v by {
            assert((a + b)[i + a.len()] == b[i]);
        }
    }
}

/// A lower bound holds of a concatenation exactly when it holds of the
/// parts.
pub(crate) proof fn lemma_all_ge_split(a: Seq<u64>, b: Seq<u64>, v: u64)
    ensures
        all_ge(a + b, v) <==> (all_ge(a, v) && all_ge(b, v)),
{
    if all_ge(a, v) && all_ge(b, v) {
        assert forall|i: int| 0 <= i < (a + b).len() implies v <= #[trigger] (a + b)[i] by {
            if i < a.len() {
                assert((a + b)[i] == a[i]);
            } else {
                assert((a + b)[i] == b[i - a.len()]);
            }
        }
    }
    if all_ge(a + b, v) {
        assert forall|i: int| 0 <= i < a.len() implies v <= #[trigger] a[i] by {
            assert((a + b)[i] == a[i]);
        }
        assert forall|i: int| 0 <= i < b.len() implies v <= #[trigger] b[i] by {
            assert((a + b)[i + a.len()] == b[i]);
        }
    }
}

/// Bounds on a one-element sequence.
pub(crate) proof fn lemma_all_singleton(c: u64, v: u64)
    ensures
        all_le(seq![c], v) <==> c <= v,
        all_ge(seq![c], v) <==> v <= c,
{
    assert(seq![c][0] == c);
}

/// Inserting a value that respects a bound keeps the bound.
pub(crate) proof fn lemma_insert_seq_bounds(s: Seq<u64>, v: u64, c: u64)
    ensures
        all_le(s, c) && v <= c ==> all_le(insert_seq(s, v), c),
        all_ge(s, c) && c <= v ==> all_ge(insert_seq(s, v), c),
        insert_seq(s, v).len() == s.len() + 1,
{
    lemma_count_bounds(s, v);
    let k = count_le(s, v);
    let t = insert_seq(s, v);
    if all_le(s, c) && v <= c {
        assert forall|i: int| 0 <= i < t.len() implies #[trigger] t[i] <= c by {
            if i < k {
                assert(t[i] == s[i]);
            } else if i == k {
                assert(t[i] == v);
            } else {
                assert(t[i] == s[i - 1]);
            }
        }
    }
    if all_ge(s, c) && c <= v {
        assert forall|i: int| 0 <= i < t.len() implies c <= #[trigger] t[i] by {
            if i < k {
                assert(t[i] == s[i]);
            } else if i == k {
                assert(t[i] == v);
            } else {
                assert(t[i] == s[i - 1]);
            }
        }
    }
}

/// Removing an element keeps every bound, and shortens the sequence by one
/// exactly when the value occurs.
pub(crate) proof fn lemma_remove_once_bounds(s: Seq<u64>, v: u64, c: u64)
    ensures
        all_le(s, c) ==> all_le(remove_once(s, v), c),
        all_ge(s, c) ==> all_ge(remove_once(s, v), c),
        s.contains(v) ==> remove_once(s, v).len() == s.len() - 1,
        !s.contains(v) ==> remove_once(s, v) == s,
{
    if s.contains(v) {
        lemma_count_bounds(s, v);
        lemma_count_lt_lt_len(s, v);
        let k = count_lt(s, v);
        let t = remove_once(s, v);
        assert(t.len() == s.len() - 1);
        assert forall|i: int| 0 <= i < t.len() implies #[trigger] t[i] == s[if i < k {
            i
        } else {
            i + 1
        }] by {
            if i < k {
                assert(t[i] == s[i]);
            } else {
                assert(t[i] == s[i + 1]);
            }
        }
    }
}

/// Counts on a one-element sequence.
pub(crate) proof fn lemma_count_singleton(c: u64, v: u64)
    ensures
        count_le(seq![c], v) == if c <= v {
            1int
        } else {
            0int
        },
        count_lt(seq![c], v) == if c < v {
            1int
        } else {
            0int
        },
{
    reveal_with_fuel(count_le, 2);
    reveal_with_fuel(count_lt, 2);
    assert(seq![c].drop_last().len() == 0);
    assert(seq![c].last() == c);
}

/// Inserting a value below the pivot `c` touches only the left part.
pub(crate) proof fn lemma_insert_seq_left(ls: Seq<u64>, c: u64, rs: Seq<u64>, v: u64)
    requires
        v < c,
        all_ge(rs, c),
    ensures
        insert_seq(ls + seq![c] + rs, v) == insert_seq(ls, v) + seq![c] + rs,
{
    let s = ls + seq![c] + rs;
    lemma_count_le_concat(ls + seq![c], rs, v);
    lemma_count_le_concat(ls, seq![c], v);
    lemma_count_le_none(rs, v);
    lemma_count_singleton(c, v);
    let k = count_le(ls, v);
    lemma_count_bounds(ls, v);
    assert(count_le(s, v) == k);
    assert(s.take(k) =~= ls.take(k));
    assert(s.skip(k) =~= ls.skip(k) + seq![c] + rs);
    assert(s.take(k) + seq![v] + s.skip(k) =~= (ls.take(k) + seq![v] + ls.skip(k)) + seq![c]
        + rs);
}

/// Inserting a value not below the pivot `c` touches only the right part.
pub(crate) proof fn lemma_insert_seq_right(ls: Seq<u64>, c: u64, rs: Seq<u64>, v: u64)
    requires
        c <= v,
        all_le(ls, c),
    ensures
        insert_seq(ls + seq![c] + rs, v) == ls + seq![c] + insert_seq(rs, v),
{
    let s = ls + seq![c] + rs;
    lemma_count_le_concat(ls + seq![c], rs, v);
    lemma_count_le_concat(ls, seq![c], v);
    assert(all_le(ls, v)) by {
        assert(forall|i: int| 0 <= i < ls.len() ==> #[trigger] ls[i] <= c);
    }
    lemma_count_le_full(ls, v);
    lemma_count_singleton(c, v);
    let k = ls.len() + 1 + count_le(rs, v);
    lemma_count_bounds(rs, v);
    assert(count_le(s, v) == k);
    assert(s.take(k) =~= ls + seq![c] + rs.take(count_le(rs, v)));
    assert(s.skip(k) =~= rs.skip(count_le(rs, v)));
    assert(s.take(k) + seq![v] + s.skip(k) =~= ls + seq![c] + (rs.take(count_le(rs, v))
        + seq![v] + rs.skip(count_le(rs, v))));
}

/// Inserting into the empty sequence yields the one-element sequence.
pub(crate) proof fn lemma_insert_seq_empty(v: u64)
    ensures
        insert_seq(Seq::<u64>::empty(), v) == seq![v],
{
    let s = Seq::<u64>::empty();
    assert(s.take(0) =~= s);
    assert(s.skip(0) =~= s);
    assert(s.take(0) + seq![v] + s.skip(0) =~= seq![v]);
}

/// Removing a value below the pivot `c` touches only the left part.
pub(crate) proof fn lemma_remove_once_left(ls: Seq<u64>, c: u64, rs: Seq<u64>, v: u64)
    requires
        v < c,
        all_ge(rs, c),
    ensures
        (ls + seq![c] + rs).contains(v) == ls.contains(v),
        remove_once(ls + seq![c] + rs, v) == remove_once(ls, v) + seq![c] + rs,
{
    let s = ls + seq![c] + rs;
    assert(s.contains(v) == ls.contains(v)) by {
        if ls.contains(v) {
            let i = choose|i: int| 0 <= i < ls.len() && ls[i] == v;
            assert(s[i] == v);
        }
        if s.contains(v) {
            let i = choose|i: int| 0 <= i < s.len() && s[i] == v;
            assert(i < ls.len()) by {
                if i >= ls.len() + 1 {
                    assert(s[i] == rs[i - ls.len() - 1]);
                }
            }
            assert(ls[i] == v);
        }
    }
    if ls.contains(v) {
        lemma_count_lt_concat(ls + seq![c], rs, v);
        lemma_count_lt_concat(ls, seq![c], v);
        lemma_count_lt_none(rs, v);
        lemma_count_singleton(c, v);
        let k = count_lt(ls, v);
        assert(count_lt(s, v) == k);
        lemma_count_bounds(ls, v);
        lemma_count_lt_lt_len(ls, v);
        assert(s.take(k) =~= ls.take(k));
        assert(s.skip(k + 1) =~= ls.skip(k + 1) + seq![c] + rs);
        assert(s.take(k) + s.skip(k + 1) =~= (ls.take(k) + ls.skip(k + 1)) + seq![c] + rs);
    }
}

/// Removing a value above the pivot `c` touches only the right part.
pub(crate) proof fn lemma_remove_once_right(ls: Seq<u64>, c: u64, rs: Seq<u64>, v: u64)
    requires
        c < v,
        all_le(ls, c),
    ensures
        (ls + seq![c] + rs).contains(v) == rs.contains(v),
        remove_once(ls + seq![c] + rs, v) == ls + seq![c] + remove_once(rs, v),
{
    let s = ls + seq![c] + rs;
    assert(s.contains(v) == rs.contains(v)) by {
        if rs.contains(v) {
            let i = choose|i: int| 0 <= i < rs.len() && rs[i] == v;
            assert(s[ls.len() + 1 + i] == v);
        }
        if s.contains(v) {
            let i = choose|i: int| 0 <= i < s.len() && s[i] == v;
            assert(i >= ls.len() + 1) by {
                if i < ls.len() {
                    assert(s[i] == ls[i]);
                }
            }
            assert(rs[i - ls.len() - 1] == v);
        }
    }
    if rs.contains(v) {
        lemma_count_lt_concat(ls + seq![c], rs, v);
        lemma_count_lt_concat(ls, seq![c], v);
        assert(forall|i: int| 0 <= i < ls.len() ==> #[trigger] ls[i] < v);
        lemma_count_lt_full(ls, v);
        lemma_count_singleton(c, v);
        let k = ls.len() + 1 + count_lt(rs, v);
        assert(count_lt(s, v) == k);
        lemma_count_bounds(rs, v);
        lemma_count_lt_lt_len(rs, v);
        assert(s.take(k) =~= ls + seq![c] + rs.take(count_lt(rs, v)));
        assert(s.skip(k + 1) =~= rs.skip(count_lt(rs, v) + 1));
        assert(s.take(k) + s.skip(k + 1) =~= ls + seq![c] + (rs.take(count_lt(rs, v))
            + rs.skip(count_lt(rs, v) + 1)));
    }
}

/// Removing the pivot itself drops exactly one copy of it; with sorted
/// parts around it the result is just the two parts joined.
pub(crate) proof fn lemma_remove_once_hit(ls: Seq<u64>, c: u64, rs: Seq<u64>)
    requires
        all_le(ls, c),
        all_ge(rs, c),
        crate::sorted(ls),
    ensures
        (ls + seq![c] + rs).contains(c),
        remove_once(ls + seq![c] + rs, c) == ls + rs,
{
    let s = ls + seq![c] + rs;
    assert(s[ls.len() as int] == c);
    lemma_count_lt_concat(ls + seq![c], rs, c);
    lemma_count_lt_concat(ls, seq![c], c);
    lemma_count_lt_none(rs, c);
    lemma_count_singleton(c, c);
    let k = count_lt(ls, c);
    assert(count_lt(s, c) == k);
    lemma_count_bounds(ls, c);
    lemma_sorted_counts(ls, c);
    assert(s.take(k) + s.skip(k + 1) =~= ls + rs) by {
        assert forall|i: int| 0 <= i < s.len() - 1 implies (s.take(k) + s.skip(k + 1))[i] == (ls
            + rs)[i] by {
            if i < k {
                assert(s[i] == ls[i]);
            } else if i < ls.len() {
                assert((s.take(k) + s.skip(k + 1))[i] == s[i + 1]);
                assert((ls + rs)[i] == ls[i]);
                assert(c <= ls[i] && ls[i] <= c);
                if i + 1 < ls.len() {
                    assert(s[i + 1] == ls[i + 1]);
                    assert(c <= ls[i + 1] && ls[i + 1] <= c);
                } else {
                    assert(s[i + 1] == c);
                }
            } else {
                assert((s.take(k) + s.skip(k + 1))[i] == s[i + 1]);
                assert(s[i + 1] == rs[i - ls.len()]);
            }
        }
    }
}

/// Binary-search-tree ordering makes the in-order sequence sorted.
pub(crate) proof fn lemma_bst_sorted(t: Link)
    requires
        bst(t),
    ensures
        crate::sorted(seq_of(t)),
    decreases t,
{
    match t {
        None => {},
        Some(node) => {
            lemma_bst_sorted(node.left);
            lemma_bst_sorted(node.right);
            let ls = seq_of(node.left);
            let rs = seq_of(node.right);
            let s = seq_of(t);
            assert forall|i: int, j: int| 0 <= i <= j < s.len() implies s[i] <= s[j] by {
                if j < ls.len() {
                } else if i < ls.len() && j == ls.len() {
                    assert(s[i] == ls[i]);
                } else if i < ls.len() {
                    assert(s[i] == ls[i] && s[j] == rs[j - ls.len() - 1]);
                    assert(s[i] <= node.content);
                    assert(node.content <= s[j]);
                } else if i == ls.len() && j > ls.len() {
                    assert(s[j] == rs[j - ls.len() - 1]);
                } else if i == ls.len() {
                } else {
                    assert(s[i] == rs[i - ls.len() - 1] && s[j] == rs[j - ls.len() - 1]);
                }
            }
        },
    }
}

} // verus!

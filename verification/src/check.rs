//! The structural invariant checker and the in-order dump.  The checker
//! recomputes every red-black condition at run time and reports whether
//! all of them hold; on a well-formed tree it is proved to find nothing
//! wrong.  The dump lists every node with its depth, element and color,
//! in order, for a caller that wants to print the tree.

use vstd::prelude::*;

use crate::btree::Color;
use crate::btree::Link;
use crate::btree::RBBTree;
use crate::btree::black_height;
use crate::btree::is_red;
use crate::btree::lemma_bh_le_size;
use crate::btree::lemma_size_is_seq_len;
use crate::btree::lemma_tree_parts;
use crate::btree::rb_valid;
use crate::btree::seq_of;
use crate::btree::size_of;

verus! {

/// One line of a dump: the node's depth below the root, its element, and
/// whether it is red.
#[derive(Clone, Copy, PartialEq, Eq, Structural, Debug)]
pub struct DumpEntry {
    pub level: usize,
    pub value: u64,
    pub red: bool,
}

/// The dump of a subtree whose root sits at depth `level`: the left
/// subtree, then the node itself, then the right subtree.
pub(crate) open spec fn dump_of(t: Link, level: int) -> Seq<DumpEntry>
    decreases t,
{
    match t {
        None => Seq::empty(),
        Some(node) => dump_of(node.left, level + 1) + seq![
            DumpEntry { level: level as usize, value: node.content, red: node.color == Color::Red },
        ] + dump_of(node.right, level + 1),
    }
}

/// The dump lists exactly the tree's elements, in order.
pub(crate) proof fn lemma_dump_values(t: Link, level: int)
    ensures
        dump_of(t, level).len() == seq_of(t).len(),
        forall|i: int|
            0 <= i < seq_of(t).len() ==> #[trigger] dump_of(t, level)[i].value == seq_of(t)[i],
    decreases t,
{
    match t {
        None => {},
        Some(node) => {
            lemma_dump_values(node.left, level + 1);
            lemma_dump_values(node.right, level + 1);
            let dl = dump_of(node.left, level + 1);
            let dr = dump_of(node.right, level + 1);
            let sl = seq_of(node.left);
            let sr = seq_of(node.right);
            assert forall|i: int| 0 <= i < seq_of(t).len() implies #[trigger] dump_of(t, level)[i].value
                == seq_of(t)[i] by {
                if i < sl.len() {
                    assert(dump_of(t, level)[i] == dl[i]);
                    assert(seq_of(t)[i] == sl[i]);
                } else if i > sl.len() {
                    assert(dump_of(t, level)[i] == dr[i - sl.len() - 1]);
                    assert(seq_of(t)[i] == sr[i - sl.len() - 1]);
                }
            }
        },
    }
}

impl RBBTree {
    /// Recompute the black height and node count of a subtree whose root
    /// sits below a parent of the given color, comparing the two child
    /// black heights and the color pairs on the way.  The third result
    /// says whether every check passed; on a valid subtree it cannot be
    /// `false`.
    pub(crate) fn check_nodes_recurse(t: &Link, parent_red: bool) -> (res: (usize, usize, bool))
        requires
            rb_valid(*t),
            parent_red ==> !is_red(*t),
            size_of(*t) <= usize::MAX,
        ensures
            res.0 == black_height(*t),
            res.1 == size_of(*t),
            res.2,
        decreases *t,
    {
        match t {
            None => (0, 0, true),
            Some(node) => {
                proof {
                    lemma_bh_le_size(node.left);
                }
                let red = node.color == Color::Red;
                if parent_red && red {
                    // two consecutive red nodes: corruption
                    (0, 0, false)
                } else {
                    let (black_left, count_left, ok_left) = Self::check_nodes_recurse(
                        &node.left,
                        red,
                    );
                    let (black_right, count_right, ok_right) = Self::check_nodes_recurse(
                        &node.right,
                        red,
                    );
                    let ok = ok_left && ok_right && black_left == black_right;
                    let black = if red {
                        black_left
                    } else {
                        black_left + 1
                    };
                    (black, count_left + 1 + count_right, ok)
                }
            },
        }
    }

    /// Walk the whole tree and check every structural invariant: the root
    /// is black, no red node has a red child, all paths agree on their
    /// black count, and the number of visited nodes equals `len()`.
    /// (Parent links need no check: with owned children a node is
    /// reachable from exactly one parent.)  Returns whether everything
    /// held; on a well-formed tree that is always `true`, so a `false`
    /// would mean corruption.
    pub fn check_nodes(&self) -> (ok: bool)
        requires
            self.wf(),
        ensures
            ok,
    {
        proof {
            lemma_tree_parts(*self);
        }
        match &self.root {
            Some(node) => {
                let root_black = node.color == Color::Black;
                let (_black, total, rest_ok) = Self::check_nodes_recurse(&self.root, false);
                root_black && rest_ok && total == self.n
            },
            None => self.n == 0,
        }
    }

    /// What `prefix_dump` returns, as a mathematical sequence.
    pub closed spec fn dump_spec(self) -> Seq<DumpEntry> {
        dump_of(self.root, 0)
    }

    /// The tree flattened in order, each node with its depth and color;
    /// what a diagnostic printout would show, left for the caller to
    /// format.
    pub fn prefix_dump(&self) -> (out: Vec<DumpEntry>)
        requires
            self.wf(),
        ensures
            out@ == self.dump_spec(),
            out@.len() == self@.len(),
            forall|i: int| 0 <= i < self@.len() ==> #[trigger] out@[i].value == self@[i],
    {
        proof {
            lemma_tree_parts(*self);
            lemma_dump_values(self.root, 0);
            lemma_size_is_seq_len(self.root);
        }
        let mut out: Vec<DumpEntry> = Vec::new();
        Self::prefix_dump_recurse(&self.root, 0, &mut out);
        out
    }

    /// Append the dump of one subtree to `out`, left part first.
    pub(crate) fn prefix_dump_recurse(t: &Link, level: usize, out: &mut Vec<DumpEntry>)
        requires
            level + size_of(*t) <= usize::MAX,
        ensures
            final(out)@ == old(out)@ + dump_of(*t, level as int),
        decreases *t,
    {
        match t {
            None => {
                proof {
                    assert(old(out)@ + dump_of(*t, level as int) =~= old(out)@);
                }
            },
            Some(node) => {
                let ghost o0 = out@;
                Self::prefix_dump_recurse(&node.left, level + 1, out);
                out.push(
                    DumpEntry {
                        level,
                        value: node.content,
                        red: node.color == Color::Red,
                    },
                );
                proof {
                    assert(out@ =~= o0 + dump_of(node.left, level + 1) + seq![
                        DumpEntry {
                            level,
                            value: node.content,
                            red: node.color == Color::Red,
                        },
                    ]);
                }
                Self::prefix_dump_recurse(&node.right, level + 1, out);
                proof {
                    assert(out@ =~= o0 + dump_of(*t, level as int));
                }
            },
        }
    }
}

} // verus!

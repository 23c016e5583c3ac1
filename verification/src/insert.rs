//! Insertion: a binary-search-tree descent placing the new red node, then
//! the climbing fix-up that repairs the one possible red-red edge on the
//! way back toward the root.

use vstd::prelude::*;

use crate::btree::Color;
use crate::btree::Link;
use crate::btree::Node;
use crate::btree::RBBTree;
use crate::btree::all_ge;
use crate::btree::all_le;
use crate::btree::balanced;
use crate::btree::black_height;
use crate::btree::bst;
use crate::btree::insert_seq;
use crate::btree::is_red;
use crate::btree::lemma_all_ge_split;
use crate::btree::lemma_all_le_split;
use crate::btree::lemma_all_singleton;
use crate::btree::lemma_count_bounds;
use crate::btree::lemma_insert_seq_bounds;
use crate::btree::lemma_insert_seq_empty;
use crate::btree::lemma_insert_seq_left;
use crate::btree::lemma_insert_seq_right;
use crate::btree::lemma_nrr_near;
use crate::btree::lemma_recolor;
use crate::btree::lemma_size_is_seq_len;
use crate::btree::lemma_tree_parts;
use crate::btree::link_is_red;
use crate::btree::near_rb;
use crate::btree::no_red_red;
use crate::btree::rb_valid;
use crate::btree::seq_of;
use crate::btree::size_of;
use crate::rotate::rotate_left;
use crate::rotate::rotate_right;

verus! {

impl RBBTree {
    /// The insertion fix-up, seen from the grandparent `node`: if one child
    /// edge below carries a red-red violation, repair it by recoloring
    /// (red uncle) or by one or two rotations (black or absent uncle),
    /// as the classification of the new node's position requires.
    pub(crate) fn insert_recurse(node: Box<Node>) -> (r: Box<Node>)
        requires
            node.color == Color::Black,
            bst(Some(node)),
            balanced(Some(node)),
            near_rb(node.left),
            near_rb(node.right),
            no_red_red(node.left) || no_red_red(node.right),
        ensures
            seq_of(Some(r)) == seq_of(Some(node)),
            bst(Some(r)),
            balanced(Some(r)),
            no_red_red(Some(r)),
            black_height(Some(r)) == black_height(Some(node)),
    {
        let ghost orig = node;
        let mut node = node;
        let left_viol = match &node.left {
            Some(p) => p.color == Color::Red && (link_is_red(&p.left) || link_is_red(&p.right)),
            None => false,
        };
        let right_viol = match &node.right {
            Some(p) => p.color == Color::Red && (link_is_red(&p.left) || link_is_red(&p.right)),
            None => false,
        };
        if left_viol {
            let ghost p0 = orig.left.unwrap();
            proof {
                assert(bst(orig.left) && balanced(orig.left));
                assert(bst(orig.right) && balanced(orig.right));
                assert(bst(Some(p0)) && balanced(Some(p0)));
                assert(all_le(seq_of(orig.left), orig.content));
                lemma_all_le_split(seq_of(p0.left) + seq![p0.content], seq_of(p0.right), orig.content);
                lemma_all_le_split(seq_of(p0.left), seq![p0.content], orig.content);
                lemma_all_singleton(p0.content, orig.content);
                assert(all_le(seq_of(p0.left), orig.content));
                assert(p0.content <= orig.content);
                assert(all_le(seq_of(p0.right), orig.content));
            }
            let mut p = node.left.take().unwrap();
            if link_is_red(&node.right) {
                // red uncle: recolor parent and uncle black, grandparent red
                let mut u = node.right.take().unwrap();
                p.color = Color::Black;
                u.color = Color::Black;
                node.color = Color::Red;
                node.left = Some(p);
                node.right = Some(u);
                proof {
                    let u0 = orig.right.unwrap();
                    let pn = node.left.unwrap();
                    let un = node.right.unwrap();
                    lemma_recolor(pn, p0);
                    lemma_recolor(un, u0);
                    assert(seq_of(Some(node)) == seq_of(Some(orig)));
                    assert(bst(Some(node)));
                    assert(black_height(Some(pn)) == black_height(p0.left) + 1);
                    assert(black_height(Some(un)) == black_height(u0.left) + 1);
                    assert(balanced(Some(pn)) && balanced(Some(un)));
                    assert(balanced(Some(node)));
                    assert(black_height(Some(node)) == black_height(Some(orig)));
                    assert(!no_red_red(Some(p0)));
                    assert(no_red_red(orig.right));
                    assert(no_red_red(p0.left) && no_red_red(p0.right));
                    assert(no_red_red(u0.left) && no_red_red(u0.right));
                    assert(no_red_red(Some(pn)) && no_red_red(Some(un)));
                    assert(no_red_red(Some(node)));
                }
                node
            } else if link_is_red(&p.left) {
                // outer grandchild: one right rotation, recolor parent and
                // grandparent
                p.color = Color::Black;
                node.color = Color::Red;
                node.left = Some(p);
                proof {
                    lemma_recolor(node.left.unwrap(), p0);
                    assert(seq_of(Some(node)) == seq_of(Some(orig)));
                }
                let r = rotate_right(node);
                proof {
                    let bn = r.right.unwrap();
                    assert(seq_of(Some(bn)) == seq_of(p0.right) + seq![orig.content] + seq_of(
                        orig.right,
                    ));
                    assert(seq_of(Some(r)) == seq_of(Some(orig)));
                    assert(all_ge(seq_of(p0.right), p0.content));
                    assert(all_ge(seq_of(orig.right), orig.content));
                    assert(all_ge(seq_of(Some(bn)), r.content)) by {
                        lemma_all_ge_split(
                            seq_of(p0.right) + seq![orig.content],
                            seq_of(orig.right),
                            p0.content,
                        );
                        lemma_all_ge_split(seq_of(p0.right), seq![orig.content], p0.content);
                        lemma_all_singleton(orig.content, p0.content);
                        assert(all_ge(seq_of(orig.right), p0.content));
                    }
                    assert(bst(Some(bn)));
                    assert(bst(Some(r)));
                    assert(black_height(Some(bn)) == black_height(p0.right));
                    assert(balanced(Some(bn)));
                    assert(balanced(Some(r)));
                    assert(black_height(Some(r)) == black_height(Some(orig)));
                    assert(!no_red_red(Some(p0)));
                    assert(no_red_red(orig.right));
                    assert(no_red_red(p0.left) && no_red_red(p0.right));
                    assert(!is_red(p0.right));
                    assert(no_red_red(Some(bn)));
                    assert(no_red_red(Some(r)));
                }
                r
            } else {
                // inner grandchild: double rotation through the near child
                proof {
                    assert(is_red(p0.right));
                }
                let mut x = rotate_left(p);
                x.color = Color::Black;
                node.color = Color::Red;
                node.left = Some(x);
                proof {
                    let x0 = p0.right.unwrap();
                    let xn = node.left.unwrap();
                    assert(seq_of(Some(xn)) == (seq_of(p0.left) + seq![p0.content] + seq_of(
                        x0.left,
                    )) + seq![x0.content] + seq_of(x0.right));
                    assert(seq_of(Some(p0)) == seq_of(p0.left) + seq![p0.content] + (seq_of(
                        x0.left,
                    ) + seq![x0.content] + seq_of(x0.right)));
                    assert(seq_of(Some(xn)) =~= seq_of(Some(p0)));
                    assert(seq_of(Some(node)) == seq_of(Some(orig)));
                }
                let r = rotate_right(node);
                proof {
                    let x0 = p0.right.unwrap();
                    let pn = r.left.unwrap();
                    let bn = r.right.unwrap();
                    assert(seq_of(Some(r)) == seq_of(Some(orig)));
                    assert(seq_of(Some(pn)) == seq_of(p0.left) + seq![p0.content] + seq_of(
                        x0.left,
                    ));
                    assert(seq_of(Some(bn)) == seq_of(x0.right) + seq![orig.content] + seq_of(
                        orig.right,
                    ));
                    // order facts around the three pivots
                    assert(bst(Some(x0)) && balanced(Some(x0)));
                    assert(all_ge(seq_of(p0.right), p0.content));
                    lemma_all_ge_split(
                        seq_of(x0.left) + seq![x0.content],
                        seq_of(x0.right),
                        p0.content,
                    );
                    lemma_all_ge_split(seq_of(x0.left), seq![x0.content], p0.content);
                    lemma_all_singleton(x0.content, p0.content);
                    assert(all_ge(seq_of(x0.left), p0.content));
                    assert(p0.content <= x0.content);
                    lemma_all_le_split(
                        seq_of(x0.left) + seq![x0.content],
                        seq_of(x0.right),
                        orig.content,
                    );
                    lemma_all_le_split(seq_of(x0.left), seq![x0.content], orig.content);
                    lemma_all_singleton(x0.content, orig.content);
                    assert(all_le(seq_of(x0.left), orig.content));
                    assert(x0.content <= orig.content);
                    assert(all_le(seq_of(x0.right), orig.content));
                    assert(bst(Some(pn))) by {
                        assert(all_le(seq_of(p0.left), p0.content));
                        assert(all_ge(seq_of(x0.left), p0.content));
                    }
                    assert(all_le(seq_of(Some(pn)), x0.content)) by {
                        lemma_all_le_split(
                            seq_of(p0.left) + seq![p0.content],
                            seq_of(x0.left),
                            x0.content,
                        );
                        lemma_all_le_split(seq_of(p0.left), seq![p0.content], x0.content);
                        lemma_all_singleton(p0.content, x0.content);
                        assert(all_le(seq_of(p0.left), p0.content));
                        assert(all_le(seq_of(x0.left), x0.content));
                    }
                    assert(all_ge(seq_of(Some(bn)), x0.content)) by {
                        lemma_all_ge_split(
                            seq_of(x0.right) + seq![orig.content],
                            seq_of(orig.right),
                            x0.content,
                        );
                        lemma_all_ge_split(seq_of(x0.right), seq![orig.content], x0.content);
                        lemma_all_singleton(orig.content, x0.content);
                        assert(all_ge(seq_of(x0.right), x0.content));
                        assert(all_ge(seq_of(orig.right), x0.content));
                    }
                    assert(bst(Some(bn)));
                    assert(bst(Some(r)));
                    assert(black_height(Some(pn)) == black_height(p0.left));
                    assert(black_height(Some(bn)) == black_height(x0.right));
                    assert(balanced(Some(pn)) && balanced(Some(bn)));
                    assert(balanced(Some(r)));
                    assert(black_height(Some(r)) == black_height(Some(orig)));
                    assert(!no_red_red(Some(p0)));
                    assert(no_red_red(orig.right));
                    assert(no_red_red(p0.left));
                    assert(no_red_red(Some(x0)));
                    assert(!is_red(x0.left) && !is_red(x0.right));
                    assert(no_red_red(x0.left) && no_red_red(x0.right));
                    assert(!is_red(p0.left));
                    assert(no_red_red(Some(pn)) && no_red_red(Some(bn)));
                    assert(no_red_red(Some(r)));
                }
                r
            }
        } else if right_viol {
            let ghost p0 = orig.right.unwrap();
            proof {
                assert(bst(orig.left) && balanced(orig.left));
                assert(bst(orig.right) && balanced(orig.right));
                assert(bst(Some(p0)) && balanced(Some(p0)));
                assert(all_ge(seq_of(orig.right), orig.content));
                lemma_all_ge_split(seq_of(p0.left) + seq![p0.content], seq_of(p0.right), orig.content);
                lemma_all_ge_split(seq_of(p0.left), seq![p0.content], orig.content);
                lemma_all_singleton(p0.content, orig.content);
                assert(all_ge(seq_of(p0.left), orig.content));
                assert(orig.content <= p0.content);
                assert(all_ge(seq_of(p0.right), orig.content));
            }
            let mut p = node.right.take().unwrap();
            if link_is_red(&node.left) {
                // red uncle: recolor parent and uncle black, grandparent red
                let mut u = node.left.take().unwrap();
                p.color = Color::Black;
                u.color = Color::Black;
                node.color = Color::Red;
                node.right = Some(p);
                node.left = Some(u);
                proof {
                    let u0 = orig.left.unwrap();
                    let pn = node.right.unwrap();
                    let un = node.left.unwrap();
                    lemma_recolor(pn, p0);
                    lemma_recolor(un, u0);
                    assert(seq_of(Some(node)) == seq_of(Some(orig)));
                    assert(bst(Some(node)));
                    assert(black_height(Some(pn)) == black_height(p0.left) + 1);
                    assert(black_height(Some(un)) == black_height(u0.left) + 1);
                    assert(balanced(Some(pn)) && balanced(Some(un)));
                    assert(balanced(Some(node)));
                    assert(black_height(Some(node)) == black_height(Some(orig)));
                    assert(!no_red_red(Some(p0)));
                    assert(no_red_red(orig.left));
                    assert(no_red_red(p0.left) && no_red_red(p0.right));
                    assert(no_red_red(u0.left) && no_red_red(u0.right));
                    assert(no_red_red(Some(pn)) && no_red_red(Some(un)));
                    assert(no_red_red(Some(node)));
                }
                node
            } else if link_is_red(&p.right) {
                // outer grandchild: one left rotation, recolor parent and
                // grandparent
                p.color = Color::Black;
                node.color = Color::Red;
                node.right = Some(p);
                proof {
                    lemma_recolor(node.right.unwrap(), p0);
                    assert(seq_of(Some(node)) == seq_of(Some(orig)));
                }
                let r = rotate_left(node);
                proof {
                    let bn = r.left.unwrap();
                    assert(seq_of(Some(bn)) == seq_of(orig.left) + seq![orig.content] + seq_of(
                        p0.left,
                    ));
                    assert(seq_of(Some(r)) == seq_of(Some(orig)));
                    assert(all_le(seq_of(p0.left), p0.content));
                    assert(all_le(seq_of(orig.left), orig.content));
                    assert(all_le(seq_of(Some(bn)), r.content)) by {
                        lemma_all_le_split(
                            seq_of(orig.left) + seq![orig.content],
                            seq_of(p0.left),
                            p0.content,
                        );
                        lemma_all_le_split(seq_of(orig.left), seq![orig.content], p0.content);
                        lemma_all_singleton(orig.content, p0.content);
                        assert(all_le(seq_of(orig.left), p0.content));
                    }
                    assert(bst(Some(bn)));
                    assert(bst(Some(r)));
                    assert(black_height(Some(bn)) == black_height(orig.left));
                    assert(balanced(Some(bn)));
                    assert(balanced(Some(r)));
                    assert(black_height(Some(r)) == black_height(Some(orig)));
                    assert(!no_red_red(Some(p0)));
                    assert(no_red_red(orig.left));
                    assert(no_red_red(p0.left) && no_red_red(p0.right));
                    assert(!is_red(p0.left));
                    assert(no_red_red(Some(bn)));
                    assert(no_red_red(Some(r)));
                }
                r
            } else {
                // inner grandchild: double rotation through the near child
                proof {
                    assert(is_red(p0.left));
                }
                let mut x = rotate_right(p);
                x.color = Color::Black;
                node.color = Color::Red;
                node.right = Some(x);
                proof {
                    let x0 = p0.left.unwrap();
                    let xn = node.right.unwrap();
                    assert(seq_of(Some(xn)) == seq_of(x0.left) + seq![x0.content] + (seq_of(
                        x0.right,
                    ) + seq![p0.content] + seq_of(p0.right)));
                    assert(seq_of(Some(p0)) == (seq_of(x0.left) + seq![x0.content] + seq_of(
                        x0.right,
                    )) + seq![p0.content] + seq_of(p0.right));
                    assert(seq_of(Some(xn)) =~= seq_of(Some(p0)));
                    assert(seq_of(Some(node)) == seq_of(Some(orig)));
                }
                let r = rotate_left(node);
                proof {
                    let x0 = p0.left.unwrap();
                    let pn = r.right.unwrap();
                    let bn = r.left.unwrap();
                    assert(seq_of(Some(r)) == seq_of(Some(orig)));
                    assert(seq_of(Some(pn)) == seq_of(x0.right) + seq![p0.content] + seq_of(
                        p0.right,
                    ));
                    assert(seq_of(Some(bn)) == seq_of(orig.left) + seq![orig.content] + seq_of(
                        x0.left,
                    ));
                    // order facts around the three pivots
                    assert(bst(Some(x0)) && balanced(Some(x0)));
                    assert(all_le(seq_of(p0.left), p0.content));
                    lemma_all_le_split(
                        seq_of(x0.left) + seq![x0.content],
                        seq_of(x0.right),
                        p0.content,
                    );
                    lemma_all_le_split(seq_of(x0.left), seq![x0.content], p0.content);
                    lemma_all_singleton(x0.content, p0.content);
                    assert(all_le(seq_of(x0.right), p0.content));
                    assert(x0.content <= p0.content);
                    lemma_all_ge_split(
                        seq_of(x0.left) + seq![x0.content],
                        seq_of(x0.right),
                        orig.content,
                    );
                    lemma_all_ge_split(seq_of(x0.left), seq![x0.content], orig.content);
                    lemma_all_singleton(x0.content, orig.content);
                    assert(all_ge(seq_of(x0.left), orig.content));
                    assert(orig.content <= x0.content);
                    assert(bst(Some(pn))) by {
                        assert(all_ge(seq_of(p0.right), p0.content));
                        assert(all_le(seq_of(x0.right), p0.content));
                    }
                    assert(all_ge(seq_of(Some(pn)), x0.content)) by {
                        lemma_all_ge_split(
                            seq_of(x0.right) + seq![p0.content],
                            seq_of(p0.right),
                            x0.content,
                        );
                        lemma_all_ge_split(seq_of(x0.right), seq![p0.content], x0.content);
                        lemma_all_singleton(p0.content, x0.content);
                        assert(all_ge(seq_of(x0.right), x0.content));
                        assert(all_ge(seq_of(p0.right), x0.content));
                    }
                    assert(all_le(seq_of(Some(bn)), x0.content)) by {
                        lemma_all_le_split(
                            seq_of(orig.left) + seq![orig.content],
                            seq_of(x0.left),
                            x0.content,
                        );
                        lemma_all_le_split(seq_of(orig.left), seq![orig.content], x0.content);
                        lemma_all_singleton(orig.content, x0.content);
                        assert(all_le(seq_of(x0.left), x0.content));
                        assert(all_le(seq_of(orig.left), x0.content));
                    }
                    assert(bst(Some(bn)));
                    assert(bst(Some(r)));
                    assert(black_height(Some(pn)) == black_height(x0.right));
                    assert(black_height(Some(bn)) == black_height(orig.left));
                    assert(balanced(Some(pn)) && balanced(Some(bn)));
                    assert(balanced(Some(r)));
                    assert(black_height(Some(r)) == black_height(Some(orig)));
                    assert(!no_red_red(Some(p0)));
                    assert(no_red_red(orig.left));
                    assert(no_red_red(p0.right));
                    assert(no_red_red(Some(x0)));
                    assert(!is_red(x0.left) && !is_red(x0.right));
                    assert(no_red_red(x0.left) && no_red_red(x0.right));
                    assert(!is_red(p0.right));
                    assert(no_red_red(Some(pn)) && no_red_red(Some(bn)));
                    assert(no_red_red(Some(r)));
                }
                r
            }
        } else {
            proof {
                assert(no_red_red(orig.left)) by {
                    match orig.left {
                        None => {},
                        Some(p) => {
                            assert(no_red_red(p.left) && no_red_red(p.right));
                        },
                    }
                }
                assert(no_red_red(orig.right)) by {
                    match orig.right {
                        None => {},
                        Some(p) => {
                            assert(no_red_red(p.left) && no_red_red(p.right));
                        },
                    }
                }
                assert(no_red_red(Some(node)));
            }
            node
        }
    }

    /// Descend from `node`, place `content` as a red node at the reached
    /// absent child (ties go right), then fix up on the way back.  The
    /// subtree keeps its black height; at most the edge from its root to
    /// one child may come back red-red, and only when the root was red.
    pub(crate) fn insert_link(node: &mut Link, content: u64)
        requires
            rb_valid(*old(node)),
        ensures
            final(node).is_some(),
            bst(*final(node)),
            balanced(*final(node)),
            near_rb(*final(node)),
            black_height(*final(node)) == black_height(*old(node)),
            seq_of(*final(node)) == insert_seq(seq_of(*old(node)), content),
            !is_red(*old(node)) ==> no_red_red(*final(node)),
            is_red(*old(node)) ==> is_red(*final(node)),
        decreases *old(node),
    {
        match node.take() {
            None => {
                *node = Some(Box::new(Node::new(content)));
                proof {
                    lemma_insert_seq_empty(content);
                    assert(seq_of(*node) =~= seq![content]);
                }
            },
            Some(mut b) => {
                let ghost b0 = b;
                proof {
                    assert(bst(Some(b0)) && balanced(Some(b0)) && no_red_red(Some(b0)));
                }
                if content < b.content {
                    Self::insert_link(&mut b.left, content);
                    proof {
                        lemma_insert_seq_left(
                            seq_of(b0.left),
                            b0.content,
                            seq_of(b0.right),
                            content,
                        );
                        lemma_insert_seq_bounds(seq_of(b0.left), content, b0.content);
                        assert(all_le(seq_of(b.left), b.content));
                        assert(bst(Some(b)));
                        assert(balanced(Some(b)));
                        assert(seq_of(Some(b)) == insert_seq(seq_of(Some(b0)), content));
                    }
                } else {
                    Self::insert_link(&mut b.right, content);
                    proof {
                        lemma_insert_seq_right(
                            seq_of(b0.left),
                            b0.content,
                            seq_of(b0.right),
                            content,
                        );
                        lemma_insert_seq_bounds(seq_of(b0.right), content, b0.content);
                        assert(all_ge(seq_of(b.right), b.content));
                        assert(bst(Some(b)));
                        assert(balanced(Some(b)));
                        assert(seq_of(Some(b)) == insert_seq(seq_of(Some(b0)), content));
                    }
                }
                if b.color == Color::Black {
                    proof {
                        if content < b0.content {
                            assert(no_red_red(b.right));
                            lemma_nrr_near(b.right);
                        } else {
                            assert(no_red_red(b.left));
                            lemma_nrr_near(b.left);
                        }
                    }
                    let r = Self::insert_recurse(b);
                    proof {
                        lemma_nrr_near(Some(r));
                    }
                    *node = Some(r);
                } else {
                    proof {
                        assert(!is_red(b0.left) && !is_red(b0.right));
                        assert(no_red_red(b.left));
                        assert(no_red_red(b.right));
                        assert(near_rb(Some(b)));
                    }
                    *node = Some(b);
                }
            },
        }
    }

    /// Insert one element; duplicates are kept and ordered to the right of
    /// the equal elements already present.
    pub fn insert(&mut self, content: u64)
        requires
            old(self).wf(),
            old(self)@.len() < usize::MAX,
        ensures
            final(self).wf(),
            final(self)@ == insert_seq(old(self)@, content),
            final(self)@.len() == old(self)@.len() + 1,
            final(self)@.to_multiset() == old(self)@.to_multiset().insert(content),
    {
        proof {
            lemma_tree_parts(*old(self));
            lemma_size_is_seq_len(old(self).root);
        }
        let mut root = self.root.take();
        Self::insert_link(&mut root, content);
        let ghost lnk = root;
        let mut b = root.unwrap();
        b.color = Color::Black;
        proof {
            lemma_recolor(b, lnk.unwrap());
            assert(seq_of(Some(b)) == insert_seq(seq_of(old(self).root), content));
            assert(bst(Some(b)) && balanced(Some(b)));
            assert(no_red_red(Some(b)));
            lemma_size_is_seq_len(Some(b));
            lemma_insert_seq_bounds(seq_of(old(self).root), content, content);
            assert(self.n < usize::MAX);
        }
        self.root = Some(b);
        self.n = self.n + 1;
        proof {
            lemma_tree_parts(*self);
            crate::laws::lemma_insert_seq_multiset(old(self)@, content);
        }
    }
}

} // verus!

//! Removal: the search descent, the three structural cases at the found
//! node (no child, one child, two children with a successor splice), and
//! the deficiency fix-up that restores equal black heights after a black
//! node has left the tree.

use vstd::prelude::*;

use crate::btree::Color;
use crate::btree::Link;
use crate::btree::Node;
use crate::btree::RBBTree;
use crate::btree::all_ge;
use crate::btree::all_le;
use crate::btree::balanced;
use crate::btree::black_height;
use crate::btree::bst;
use crate::btree::is_red;
use crate::btree::lemma_all_ge_split;
use crate::btree::lemma_all_le_split;
use crate::btree::lemma_all_singleton;
use crate::btree::lemma_bst_sorted;
use crate::btree::lemma_recolor;
use crate::btree::lemma_remove_once_bounds;
use crate::btree::lemma_remove_once_hit;
use crate::btree::lemma_remove_once_left;
use crate::btree::lemma_remove_once_right;
use crate::btree::lemma_size_is_seq_len;
use crate::btree::lemma_tree_parts;
use crate::btree::link_is_red;
use crate::btree::no_red_red;
use crate::btree::rb_valid;
use crate::btree::remove_once;
use crate::btree::seq_of;
use crate::btree::size_of;
use crate::rotate::rotate_left;
use crate::rotate::rotate_right;

verus! {

/// The black height that the subtree rooted at `p` is meant to regain,
/// measured through the sibling of the deficient child (the deficient
/// child itself is one short, so it cannot be measured through).
pub(crate) open spec fn intended_bh(p: Box<Node>, right_deficient: bool) -> nat {
    (if right_deficient {
        black_height(p.left)
    } else {
        black_height(p.right)
    }) + (if p.color == Color::Black {
        1nat
    } else {
        0nat
    })
}

impl RBBTree {
    /// The deficiency fix-up: one child of `p` (the right one when
    /// `right_deficient`, else the left one) is a valid subtree one black
    /// node short; its sibling carries the spare.  Classified by the
    /// sibling's color and the sibling's children's colors: recolor when
    /// everything around is black, one rotation when the far nephew is
    /// red, a double rotation when only the near nephew is, and when the
    /// sibling itself is red rotate it up first and fix below.  Returns
    /// the rebuilt subtree and whether it is still one black node short.
    #[verifier::rlimit(100)]
    #[verifier::spinoff_prover]
    pub(crate) fn remove_modify_tree(p: Box<Node>, right_deficient: bool) -> (res: (
        Box<Node>,
        bool,
    ))
        requires
            bst(Some(p)),
            balanced(p.left),
            balanced(p.right),
            no_red_red(p.left),
            no_red_red(p.right),
            p.color == Color::Red ==> !is_red(p.left) && !is_red(p.right),
            right_deficient ==> black_height(p.left) == black_height(p.right) + 1 && !is_red(
                p.right,
            ),
            !right_deficient ==> black_height(p.right) == black_height(p.left) + 1 && !is_red(
                p.left,
            ),
        ensures
            seq_of(Some(res.0)) == seq_of(Some(p)),
            bst(Some(res.0)),
            balanced(Some(res.0)),
            no_red_red(Some(res.0)),
            !res.1 ==> black_height(Some(res.0)) == intended_bh(p, right_deficient) && (is_red(
                Some(res.0),
            ) ==> is_red(Some(p))),
            res.1 ==> black_height(Some(res.0)) + 1 == intended_bh(p, right_deficient) && !is_red(
                Some(res.0),
            ),
            is_red(Some(p)) ==> !res.1,
        decreases size_of(Some(p)),
    {
        let ghost orig = p;
        let mut p = p;
        if right_deficient {
            proof {
                assert(black_height(orig.left) >= 1);
                assert(orig.left.is_some());
                let f0 = orig.left.unwrap();
                assert(bst(Some(f0)) && balanced(Some(f0)) && no_red_red(Some(f0)));
                assert(all_le(seq_of(orig.left), orig.content));
                lemma_all_le_split(
                    seq_of(f0.left) + seq![f0.content],
                    seq_of(f0.right),
                    orig.content,
                );
                lemma_all_le_split(seq_of(f0.left), seq![f0.content], orig.content);
                lemma_all_singleton(f0.content, orig.content);
            }
            let ghost f0 = orig.left.unwrap();
            let mut f = p.left.take().unwrap();
            if f.color == Color::Red {
                // red sibling: rotate it above `p`, swap the two colors,
                // and resolve the deficiency below, where the new sibling
                // is black
                f.color = Color::Black;
                p.color = Color::Red;
                p.left = Some(f);
                proof {
                    lemma_recolor(p.left.unwrap(), f0);
                }
                let mut r = rotate_right(p);
                let p2 = r.right.take().unwrap();
                proof {
                    assert(seq_of(Some(p2)) == seq_of(f0.right) + seq![orig.content] + seq_of(
                        orig.right,
                    ));
                    assert(bst(Some(p2)));
                    assert(black_height(Some(f0)) == black_height(f0.left));
                    assert(black_height(f0.left) == black_height(f0.right));
                    assert(black_height(f0.right) == black_height(orig.right) + 1);
                    assert(size_of(Some(p2)) < size_of(Some(orig))) by {
                        assert(size_of(orig.left) == size_of(f0.left) + 1 + size_of(f0.right));
                    }
                    assert(!is_red(f0.right));
                }
                let (fixed, d2) = Self::remove_modify_tree(p2, true);
                proof {
                    assert(!d2);
                    assert(black_height(Some(fixed)) == black_height(f0.right));
                }
                r.right = Some(fixed);
                proof {
                    assert(seq_of(Some(r)) == seq_of(f0.left) + seq![f0.content] + seq_of(
                        Some(fixed),
                    ));
                    assert(seq_of(Some(r)) =~= seq_of(Some(orig)));
                    assert(all_ge(seq_of(Some(fixed)), f0.content)) by {
                        lemma_all_ge_split(
                            seq_of(f0.right) + seq![orig.content],
                            seq_of(orig.right),
                            f0.content,
                        );
                        lemma_all_ge_split(seq_of(f0.right), seq![orig.content], f0.content);
                        lemma_all_singleton(orig.content, f0.content);
                        assert(all_ge(seq_of(f0.right), f0.content));
                        assert(all_ge(seq_of(orig.right), orig.content));
                        assert(all_ge(seq_of(orig.right), f0.content));
                    }
                    assert(bst(Some(r)));
                    assert(balanced(Some(r)));
                    assert(black_height(Some(r)) == black_height(f0.left) + 1);
                    assert(!is_red(Some(orig)));
                    assert(intended_bh(orig, true) == black_height(f0.left) + 1);
                    assert(!is_red(f0.left));
                    assert(no_red_red(f0.left));
                    assert(no_red_red(Some(r)));
                }
                (r, false)
            } else {
                let far_red = link_is_red(&f.left);
                let near_red = link_is_red(&f.right);
                if far_red {
                    // far nephew red: one rotation, the sibling takes the
                    // parent's color, parent and nephew turn black
                    let mut sl = f.left.take().unwrap();
                    let ghost sl0 = f0.left.unwrap();
                    sl.color = Color::Black;
                    f.color = p.color;
                    p.color = Color::Black;
                    f.left = Some(sl);
                    proof {
                        lemma_recolor(f.left.unwrap(), sl0);
                        assert(seq_of(f.left) == seq_of(Some(sl0)));
                        assert(seq_of(Some(f)) == seq_of(f.left) + seq![f.content] + seq_of(
                            f.right,
                        ));
                        assert(seq_of(Some(f0)) == seq_of(f0.left) + seq![f0.content] + seq_of(
                            f0.right,
                        ));
                        assert(seq_of(Some(f)) == seq_of(Some(f0)));
                    }
                    p.left = Some(f);
                    let r = rotate_right(p);
                    proof {
                        let bn = r.right.unwrap();
                        assert(seq_of(Some(bn)) == seq_of(f0.right) + seq![orig.content] + seq_of(
                            orig.right,
                        ));
                        assert(seq_of(Some(r)) == seq_of(Some(f0)) + seq![orig.content] + seq_of(
                            orig.right,
                        ));
                        assert(seq_of(Some(orig)) == seq_of(orig.left) + seq![orig.content]
                            + seq_of(orig.right));
                        assert(seq_of(Some(r)) == seq_of(Some(orig)));
                        assert(all_ge(seq_of(Some(bn)), f0.content)) by {
                            lemma_all_ge_split(
                                seq_of(f0.right) + seq![orig.content],
                                seq_of(orig.right),
                                f0.content,
                            );
                            lemma_all_ge_split(seq_of(f0.right), seq![orig.content], f0.content);
                            lemma_all_singleton(orig.content, f0.content);
                            assert(all_ge(seq_of(f0.right), f0.content));
                            assert(all_ge(seq_of(orig.right), orig.content));
                            assert(all_ge(seq_of(orig.right), f0.content));
                        }
                        assert(bst(Some(bn)));
                        assert(bst(Some(r)));
                        // black heights: the sibling was black, the far
                        // nephew red, and it now carries the spare black
                        assert(is_red(f0.left));
                        assert(balanced(Some(sl0)));
                        assert(black_height(Some(f0)) == black_height(f0.left) + 1);
                        assert(black_height(f0.left) == black_height(f0.right));
                        assert(black_height(f0.left) == black_height(orig.right));
                        assert(black_height(Some(sl0)) == black_height(sl0.left));
                        assert(black_height(sl0.left) == black_height(sl0.right));
                        assert(black_height(r.left) == black_height(sl0.left) + 1);
                        assert(black_height(Some(bn)) == black_height(f0.right) + 1);
                        assert(balanced(r.left));
                        assert(balanced(Some(bn)));
                        assert(balanced(Some(r)));
                        assert(black_height(Some(r)) == intended_bh(orig, true));
                        assert(no_red_red(Some(f0)));
                        assert(no_red_red(f0.left) && no_red_red(f0.right));
                        assert(no_red_red(Some(sl0)));
                        assert(no_red_red(sl0.left) && no_red_red(sl0.right));
                        assert(no_red_red(Some(bn)));
                        assert(no_red_red(r.left));
                        assert(no_red_red(Some(r)));
                    }
                    (r, false)
                } else if near_red {
                    // near nephew red: double rotation through it; it takes
                    // the parent's color, the parent turns black
                    let mut sr = f.right.take().unwrap();
                    let ghost sr0 = f0.right.unwrap();
                    sr.color = p.color;
                    p.color = Color::Black;
                    f.right = Some(sr);
                    proof {
                        lemma_recolor(f.right.unwrap(), sr0);
                        assert(seq_of(f.right) == seq_of(Some(sr0)));
                    }
                    let x = rotate_left(f);
                    p.left = Some(x);
                    proof {
                        assert(seq_of(p.left) == (seq_of(f0.left) + seq![f0.content] + seq_of(
                            sr0.left,
                        )) + seq![sr0.content] + seq_of(sr0.right));
                        assert(seq_of(Some(f0)) == seq_of(f0.left) + seq![f0.content] + (seq_of(
                            sr0.left,
                        ) + seq![sr0.content] + seq_of(sr0.right)));
                        assert(seq_of(p.left) =~= seq_of(Some(f0)));
                    }
                    let r = rotate_right(p);
                    proof {
                        let fn0 = r.left.unwrap();
                        let bn = r.right.unwrap();
                        assert(seq_of(Some(r)) == seq_of(Some(orig)));
                        assert(seq_of(Some(fn0)) == seq_of(f0.left) + seq![f0.content] + seq_of(
                            sr0.left,
                        ));
                        assert(seq_of(Some(bn)) == seq_of(sr0.right) + seq![orig.content] + seq_of(
                            orig.right,
                        ));
                        assert(bst(Some(f0)) && bst(Some(sr0)));
                        // order facts
                        assert(all_ge(seq_of(f0.right), f0.content));
                        lemma_all_ge_split(
                            seq_of(sr0.left) + seq![sr0.content],
                            seq_of(sr0.right),
                            f0.content,
                        );
                        lemma_all_ge_split(seq_of(sr0.left), seq![sr0.content], f0.content);
                        lemma_all_singleton(sr0.content, f0.content);
                        assert(all_ge(seq_of(sr0.left), f0.content));
                        assert(f0.content <= sr0.content);
                        assert(all_le(seq_of(f0.right), orig.content));
                        lemma_all_le_split(
                            seq_of(sr0.left) + seq![sr0.content],
                            seq_of(sr0.right),
                            orig.content,
                        );
                        lemma_all_le_split(seq_of(sr0.left), seq![sr0.content], orig.content);
                        lemma_all_singleton(sr0.content, orig.content);
                        assert(all_le(seq_of(sr0.right), orig.content));
                        assert(sr0.content <= orig.content);
                        assert(bst(Some(fn0))) by {
                            assert(all_le(seq_of(f0.left), f0.content));
                        }
                        assert(all_le(seq_of(Some(fn0)), sr0.content)) by {
                            lemma_all_le_split(
                                seq_of(f0.left) + seq![f0.content],
                                seq_of(sr0.left),
                                sr0.content,
                            );
                            lemma_all_le_split(seq_of(f0.left), seq![f0.content], sr0.content);
                            lemma_all_singleton(f0.content, sr0.content);
                            assert(all_le(seq_of(f0.left), f0.content));
                            assert(all_le(seq_of(sr0.left), sr0.content));
                        }
                        assert(all_ge(seq_of(Some(bn)), sr0.content)) by {
                            lemma_all_ge_split(
                                seq_of(sr0.right) + seq![orig.content],
                                seq_of(orig.right),
                                sr0.content,
                            );
                            lemma_all_ge_split(seq_of(sr0.right), seq![orig.content], sr0.content);
                            lemma_all_singleton(orig.content, sr0.content);
                            assert(all_ge(seq_of(sr0.right), sr0.content));
                            assert(all_ge(seq_of(orig.right), orig.content));
                            assert(all_ge(seq_of(orig.right), sr0.content));
                        }
                        assert(bst(Some(bn)));
                        assert(bst(Some(r)));
                        // black heights: the red near nephew splits into
                        // the two new black-rooted children
                        assert(is_red(f0.right));
                        assert(balanced(Some(sr0)));
                        assert(black_height(Some(f0)) == black_height(f0.left) + 1);
                        assert(black_height(f0.left) == black_height(f0.right));
                        assert(black_height(f0.left) == black_height(orig.right));
                        assert(black_height(Some(sr0)) == black_height(sr0.left));
                        assert(black_height(sr0.left) == black_height(sr0.right));
                        assert(black_height(Some(fn0)) == black_height(f0.left) + 1);
                        assert(black_height(Some(bn)) == black_height(sr0.right) + 1);
                        assert(balanced(Some(fn0)) && balanced(Some(bn)));
                        assert(balanced(Some(r)));
                        assert(black_height(Some(r)) == intended_bh(orig, true));
                        assert(no_red_red(Some(f0)));
                        assert(no_red_red(f0.left) && no_red_red(f0.right));
                        assert(no_red_red(Some(sr0)));
                        assert(no_red_red(sr0.left) && no_red_red(sr0.right));
                        assert(no_red_red(Some(fn0)) && no_red_red(Some(bn)));
                        assert(no_red_red(Some(r)));
                    }
                    (r, false)
                } else {
                    // sibling and both nephews black: pull the spare black
                    // level out of the sibling; a red parent absorbs the
                    // deficiency, a black one passes it up
                    f.color = Color::Red;
                    let was_red = p.color == Color::Red;
                    p.color = Color::Black;
                    p.left = Some(f);
                    proof {
                        lemma_recolor(p.left.unwrap(), f0);
                        assert(seq_of(p.left) == seq_of(Some(f0)));
                        assert(seq_of(Some(p)) == seq_of(p.left) + seq![p.content] + seq_of(
                            p.right,
                        ));
                        assert(seq_of(Some(orig)) == seq_of(orig.left) + seq![orig.content]
                            + seq_of(orig.right));
                        assert(seq_of(Some(p)) == seq_of(Some(orig)));
                        assert(bst(Some(p)));
                        assert(black_height(Some(f0)) == black_height(f0.left) + 1);
                        assert(black_height(f0.left) == black_height(f0.right));
                        assert(black_height(p.left) == black_height(f0.left));
                        assert(black_height(f0.left) == black_height(orig.right));
                        assert(balanced(p.left));
                        assert(balanced(Some(p)));
                        assert(no_red_red(p.left));
                        assert(no_red_red(Some(p)));
                        assert(black_height(Some(p)) == black_height(f0.left) + 1);
                        assert(intended_bh(orig, true) == black_height(f0.left) + 1 + (
                        if was_red {
                            0nat
                        } else {
                            1nat
                        }));
                    }
                    (p, !was_red)
                }
            }
        } else {
            // mirror image: the deficient child is on the left, the
            // sibling on the right
            proof {
                assert(black_height(orig.right) >= 1);
                assert(orig.right.is_some());
                let f0 = orig.right.unwrap();
                assert(bst(Some(f0)) && balanced(Some(f0)) && no_red_red(Some(f0)));
                assert(all_ge(seq_of(orig.right), orig.content));
                lemma_all_ge_split(
                    seq_of(f0.left) + seq![f0.content],
                    seq_of(f0.right),
                    orig.content,
                );
                lemma_all_ge_split(seq_of(f0.left), seq![f0.content], orig.content);
                lemma_all_singleton(f0.content, orig.content);
            }
            let ghost f0 = orig.right.unwrap();
            let mut f = p.right.take().unwrap();
            if f.color == Color::Red {
                // red sibling: rotate it above `p`, swap the two colors,
                // and resolve the deficiency below, where the new sibling
                // is black
                f.color = Color::Black;
                p.color = Color::Red;
                p.right = Some(f);
                proof {
                    lemma_recolor(p.right.unwrap(), f0);
                }
                let mut r = rotate_left(p);
                let p2 = r.left.take().unwrap();
                proof {
                    assert(seq_of(Some(p2)) == seq_of(orig.left) + seq![orig.content] + seq_of(
                        f0.left,
                    ));
                    assert(bst(Some(p2)));
                    assert(black_height(Some(f0)) == black_height(f0.left));
                    assert(black_height(f0.left) == black_height(f0.right));
                    assert(black_height(f0.left) == black_height(orig.left) + 1);
                    assert(size_of(Some(p2)) < size_of(Some(orig))) by {
                        assert(size_of(orig.right) == size_of(f0.left) + 1 + size_of(f0.right));
                    }
                    assert(!is_red(f0.left));
                }
                let (fixed, d2) = Self::remove_modify_tree(p2, false);
                proof {
                    assert(!d2);
                    assert(black_height(Some(fixed)) == black_height(f0.left));
                }
                r.left = Some(fixed);
                proof {
                    assert(seq_of(Some(r)) == seq_of(Some(fixed)) + seq![f0.content] + seq_of(
                        f0.right,
                    ));
                    assert(seq_of(Some(r)) =~= seq_of(Some(orig)));
                    assert(all_le(seq_of(Some(fixed)), f0.content)) by {
                        lemma_all_le_split(
                            seq_of(orig.left) + seq![orig.content],
                            seq_of(f0.left),
                            f0.content,
                        );
                        lemma_all_le_split(seq_of(orig.left), seq![orig.content], f0.content);
                        lemma_all_singleton(orig.content, f0.content);
                        assert(all_le(seq_of(f0.left), f0.content));
                        assert(all_le(seq_of(orig.left), orig.content));
                        assert(all_le(seq_of(orig.left), f0.content));
                    }
                    assert(bst(Some(r)));
                    assert(balanced(Some(r)));
                    assert(black_height(Some(r)) == black_height(Some(fixed)) + 1);
                    assert(!is_red(Some(orig)));
                    assert(intended_bh(orig, false) == black_height(f0.left) + 1);
                    assert(!is_red(f0.right));
                    assert(no_red_red(f0.right));
                    assert(no_red_red(Some(r)));
                }
                (r, false)
            } else {
                let far_red = link_is_red(&f.right);
                let near_red = link_is_red(&f.left);
                if far_red {
                    // far nephew red: one rotation, the sibling takes the
                    // parent's color, parent and nephew turn black
                    let mut sr = f.right.take().unwrap();
                    let ghost sr0 = f0.right.unwrap();
                    sr.color = Color::Black;
                    f.color = p.color;
                    p.color = Color::Black;
                    f.right = Some(sr);
                    proof {
                        lemma_recolor(f.right.unwrap(), sr0);
                        assert(seq_of(f.right) == seq_of(Some(sr0)));
                        assert(seq_of(Some(f)) == seq_of(f.left) + seq![f.content] + seq_of(
                            f.right,
                        ));
                        assert(seq_of(Some(f0)) == seq_of(f0.left) + seq![f0.content] + seq_of(
                            f0.right,
                        ));
                        assert(seq_of(Some(f)) == seq_of(Some(f0)));
                    }
                    p.right = Some(f);
                    let r = rotate_left(p);
                    proof {
                        let bn = r.left.unwrap();
                        assert(seq_of(Some(bn)) == seq_of(orig.left) + seq![orig.content] + seq_of(
                            f0.left,
                        ));
                        assert(seq_of(Some(r)) == seq_of(Some(bn)) + seq![f0.content] + seq_of(
                            Some(sr0),
                        ));
                        assert(seq_of(Some(orig)) == seq_of(orig.left) + seq![orig.content]
                            + seq_of(orig.right));
                        assert(seq_of(Some(r)) =~= seq_of(Some(orig)));
                        assert(all_le(seq_of(Some(bn)), f0.content)) by {
                            lemma_all_le_split(
                                seq_of(orig.left) + seq![orig.content],
                                seq_of(f0.left),
                                f0.content,
                            );
                            lemma_all_le_split(seq_of(orig.left), seq![orig.content], f0.content);
                            lemma_all_singleton(orig.content, f0.content);
                            assert(all_le(seq_of(f0.left), f0.content));
                            assert(all_le(seq_of(orig.left), orig.content));
                            assert(all_le(seq_of(orig.left), f0.content));
                        }
                        assert(bst(Some(bn)));
                        assert(bst(Some(r)));
                        // black heights: the sibling was black, the far
                        // nephew red, and it now carries the spare black
                        assert(is_red(f0.right));
                        assert(balanced(Some(sr0)));
                        assert(black_height(Some(f0)) == black_height(f0.left) + 1);
                        assert(black_height(f0.left) == black_height(f0.right));
                        assert(black_height(f0.left) == black_height(orig.left));
                        assert(black_height(Some(sr0)) == black_height(sr0.left));
                        assert(black_height(sr0.left) == black_height(sr0.right));
                        assert(black_height(r.right) == black_height(sr0.left) + 1);
                        assert(black_height(Some(bn)) == black_height(orig.left) + 1);
                        assert(balanced(r.right));
                        assert(balanced(Some(bn)));
                        assert(balanced(Some(r)));
                        assert(black_height(Some(r)) == intended_bh(orig, false));
                        assert(no_red_red(Some(f0)));
                        assert(no_red_red(f0.left) && no_red_red(f0.right));
                        assert(no_red_red(Some(sr0)));
                        assert(no_red_red(sr0.left) && no_red_red(sr0.right));
                        assert(no_red_red(Some(bn)));
                        assert(no_red_red(r.right));
                        assert(no_red_red(Some(r)));
                    }
                    (r, false)
                } else if near_red {
                    // near nephew red: double rotation through it; it takes
                    // the parent's color, the parent turns black
                    let mut sl = f.left.take().unwrap();
                    let ghost sl0 = f0.left.unwrap();
                    sl.color = p.color;
                    p.color = Color::Black;
                    f.left = Some(sl);
                    proof {
                        lemma_recolor(f.left.unwrap(), sl0);
                        assert(seq_of(f.left) == seq_of(Some(sl0)));
                    }
                    let x = rotate_right(f);
                    p.right = Some(x);
                    proof {
                        assert(seq_of(p.right) == seq_of(sl0.left) + seq![sl0.content] + (seq_of(
                            sl0.right,
                        ) + seq![f0.content] + seq_of(f0.right)));
                        assert(seq_of(Some(f0)) == (seq_of(sl0.left) + seq![sl0.content] + seq_of(
                            sl0.right,
                        )) + seq![f0.content] + seq_of(f0.right));
                        assert(seq_of(p.right) =~= seq_of(Some(f0)));
                    }
                    let r = rotate_left(p);
                    proof {
                        let fn0 = r.right.unwrap();
                        let bn = r.left.unwrap();
                        assert(seq_of(Some(r)) == seq_of(Some(orig)));
                        assert(seq_of(Some(fn0)) == seq_of(sl0.right) + seq![f0.content] + seq_of(
                            f0.right,
                        ));
                        assert(seq_of(Some(bn)) == seq_of(orig.left) + seq![orig.content] + seq_of(
                            sl0.left,
                        ));
                        assert(bst(Some(f0)) && bst(Some(sl0)));
                        // order facts
                        assert(all_le(seq_of(f0.left), f0.content));
                        lemma_all_le_split(
                            seq_of(sl0.left) + seq![sl0.content],
                            seq_of(sl0.right),
                            f0.content,
                        );
                        lemma_all_le_split(seq_of(sl0.left), seq![sl0.content], f0.content);
                        lemma_all_singleton(sl0.content, f0.content);
                        assert(all_le(seq_of(sl0.right), f0.content));
                        assert(sl0.content <= f0.content);
                        assert(all_ge(seq_of(f0.left), orig.content));
                        lemma_all_ge_split(
                            seq_of(sl0.left) + seq![sl0.content],
                            seq_of(sl0.right),
                            orig.content,
                        );
                        lemma_all_ge_split(seq_of(sl0.left), seq![sl0.content], orig.content);
                        lemma_all_singleton(sl0.content, orig.content);
                        assert(all_ge(seq_of(sl0.left), orig.content));
                        assert(orig.content <= sl0.content);
                        assert(bst(Some(fn0))) by {
                            assert(all_ge(seq_of(f0.right), f0.content));
                            assert(all_le(seq_of(sl0.right), f0.content));
                        }
                        assert(all_ge(seq_of(Some(fn0)), sl0.content)) by {
                            lemma_all_ge_split(
                                seq_of(sl0.right) + seq![f0.content],
                                seq_of(f0.right),
                                sl0.content,
                            );
                            lemma_all_ge_split(seq_of(sl0.right), seq![f0.content], sl0.content);
                            lemma_all_singleton(f0.content, sl0.content);
                            assert(all_ge(seq_of(sl0.right), sl0.content));
                            assert(all_ge(seq_of(f0.right), f0.content));
                            assert(all_ge(seq_of(f0.right), sl0.content));
                        }
                        assert(all_le(seq_of(Some(bn)), sl0.content)) by {
                            lemma_all_le_split(
                                seq_of(orig.left) + seq![orig.content],
                                seq_of(sl0.left),
                                sl0.content,
                            );
                            lemma_all_le_split(seq_of(orig.left), seq![orig.content], sl0.content);
                            lemma_all_singleton(orig.content, sl0.content);
                            assert(all_le(seq_of(sl0.left), sl0.content));
                            assert(all_le(seq_of(orig.left), orig.content));
                            assert(all_le(seq_of(orig.left), sl0.content));
                        }
                        assert(bst(Some(bn)));
                        assert(bst(Some(r)));
                        // black heights: the red near nephew splits into
                        // the two new black-rooted children
                        assert(is_red(f0.left));
                        assert(balanced(Some(sl0)));
                        assert(black_height(Some(f0)) == black_height(f0.left) + 1);
                        assert(black_height(f0.left) == black_height(f0.right));
                        assert(black_height(f0.left) == black_height(orig.left));
                        assert(black_height(Some(sl0)) == black_height(sl0.left));
                        assert(black_height(sl0.left) == black_height(sl0.right));
                        assert(black_height(Some(fn0)) == black_height(sl0.right) + 1);
                        assert(black_height(Some(bn)) == black_height(orig.left) + 1);
                        assert(balanced(Some(fn0)) && balanced(Some(bn)));
                        assert(balanced(Some(r)));
                        assert(black_height(Some(r)) == intended_bh(orig, false));
                        assert(no_red_red(Some(f0)));
                        assert(no_red_red(f0.left) && no_red_red(f0.right));
                        assert(no_red_red(Some(sl0)));
                        assert(no_red_red(sl0.left) && no_red_red(sl0.right));
                        assert(no_red_red(Some(fn0)) && no_red_red(Some(bn)));
                        assert(no_red_red(Some(r)));
                    }
                    (r, false)
                } else {
                    // sibling and both nephews black: pull the spare black
                    // level out of the sibling; a red parent absorbs the
                    // deficiency, a black one passes it up
                    f.color = Color::Red;
                    let was_red = p.color == Color::Red;
                    p.color = Color::Black;
                    p.right = Some(f);
                    proof {
                        lemma_recolor(p.right.unwrap(), f0);
                        assert(seq_of(p.right) == seq_of(Some(f0)));
                        assert(seq_of(Some(p)) == seq_of(p.left) + seq![p.content] + seq_of(
                            p.right,
                        ));
                        assert(seq_of(Some(orig)) == seq_of(orig.left) + seq![orig.content]
                            + seq_of(orig.right));
                        assert(seq_of(Some(p)) == seq_of(Some(orig)));
                        assert(bst(Some(p)));
                        assert(black_height(Some(f0)) == black_height(f0.left) + 1);
                        assert(black_height(f0.left) == black_height(f0.right));
                        assert(black_height(p.right) == black_height(f0.left));
                        assert(black_height(f0.left) == black_height(orig.left));
                        assert(balanced(p.right));
                        assert(balanced(Some(p)));
                        assert(no_red_red(p.right));
                        assert(no_red_red(Some(p)));
                        assert(black_height(Some(p)) == black_height(orig.left) + 1);
                        assert(intended_bh(orig, false) == black_height(f0.left) + 1 + (
                        if was_red {
                            0nat
                        } else {
                            1nat
                        }));
                    }
                    (p, !was_red)
                }
            }
        }
    }

    /// Unlink the leftmost node of a non-empty subtree and hand its
    /// element back, together with whether the subtree is now one black
    /// node short.
    pub(crate) fn remove_min(node: &mut Link) -> (res: (u64, bool))
        requires
            old(node).is_some(),
            rb_valid(*old(node)),
        ensures
            bst(*final(node)),
            balanced(*final(node)),
            no_red_red(*final(node)),
            seq_of(*old(node)) == seq![res.0] + seq_of(*final(node)),
            !res.1 ==> black_height(*final(node)) == black_height(*old(node)) && (is_red(
                *final(node),
            ) ==> is_red(*old(node))),
            res.1 ==> black_height(*final(node)) + 1 == black_height(*old(node)) && !is_red(
                *final(node),
            ),
        decreases *old(node),
    {
        let mut b = node.take().unwrap();
        let ghost b0 = b;
        proof {
            assert(bst(Some(b0)) && balanced(Some(b0)) && no_red_red(Some(b0)));
        }
        if b.left.is_some() {
            let (m, d) = Self::remove_min(&mut b.left);
            proof {
                assert(seq_of(Some(b0)) == seq_of(b0.left) + seq![b0.content] + seq_of(b0.right));
                assert(seq_of(Some(b)) == seq_of(b.left) + seq![b0.content] + seq_of(b0.right));
                assert(seq_of(Some(b0)) =~= seq![m] + seq_of(Some(b)));
                lemma_all_le_split(seq![m], seq_of(b.left), b0.content);
                assert(all_le(seq_of(b0.left), b0.content));
                assert(all_le(seq_of(b.left), b0.content));
                assert(bst(Some(b)));
            }
            if d {
                proof {
                    assert(b.color == Color::Red ==> !is_red(b.left) && !is_red(b.right));
                    assert(black_height(b.right) == black_height(b.left) + 1);
                }
                let ghost bmid = b;
                let (r, d2) = Self::remove_modify_tree(b, false);
                proof {
                    assert(intended_bh(bmid, false) == black_height(Some(b0)));
                }
                *node = Some(r);
                (m, d2)
            } else {
                proof {
                    assert(balanced(Some(b)));
                    assert(no_red_red(Some(b)));
                    assert(black_height(Some(b)) == black_height(Some(b0)));
                }
                *node = Some(b);
                (m, false)
            }
        } else {
            // `b` is the minimum; splice its only possible child up
            match b.right.take() {
                Some(mut c) => {
                    let ghost c0 = b0.right.unwrap();
                    proof {
                        assert(black_height(b0.left) == 0);
                        assert(black_height(b0.right) == 0);
                        assert(c0.color == Color::Red) by {
                            if c0.color == Color::Black {
                                assert(black_height(b0.right) >= 1);
                            }
                        }
                        assert(b0.color == Color::Black) by {
                            if b0.color == Color::Red {
                                assert(!is_red(b0.right));
                            }
                        }
                    }
                    c.color = Color::Black;
                    proof {
                        lemma_recolor(c, c0);
                        assert(seq_of(Some(b0)) == seq_of(b0.left) + seq![b0.content] + seq_of(
                            b0.right,
                        ));
                        assert(seq_of(Some(b0)) =~= seq![b0.content] + seq_of(Some(c)));
                        assert(black_height(Some(c)) == black_height(c0.left) + 1);
                        assert(black_height(Some(b0)) == 1);
                        assert(no_red_red(Some(c0)));
                        assert(no_red_red(c0.left) && no_red_red(c0.right));
                        assert(no_red_red(Some(c)));
                        assert(balanced(Some(c0)));
                        assert(black_height(c0.left) == black_height(c0.right));
                        assert(balanced(c0.left) && balanced(c0.right));
                        assert(balanced(Some(c)));
                    }
                    *node = Some(c);
                    (b.content, false)
                },
                None => {
                    *node = None;
                    let deficient = b.color == Color::Black;
                    proof {
                        assert(seq_of(Some(b0)) =~= seq![b0.content]);
                        assert(seq_of(*node) =~= Seq::<u64>::empty());
                    }
                    (b.content, deficient)
                },
            }
        }
    }

    /// Structural removal of the root of subtree `b`, which holds the
    /// element to take out.  No child: the node just goes (leaving a
    /// deficiency when it was black).  One child: that child, necessarily
    /// a red leaf-level node, is spliced up and turned black — a black
    /// only child would already have broken the equal-black-height
    /// invariant, and the proof shows that case cannot arise.  Two
    /// children: the in-order successor, the minimum of the right subtree,
    /// takes the removed element's place and its old slot is removed
    /// instead.
    pub(crate) fn remove_find_case(b: Box<Node>) -> (res: (Link, bool))
        requires
            rb_valid(Some(b)),
        ensures
            bst(res.0),
            balanced(res.0),
            no_red_red(res.0),
            seq_of(res.0) == seq_of(b.left) + seq_of(b.right),
            !res.1 ==> black_height(res.0) == black_height(Some(b)) && (is_red(res.0) ==> is_red(
                Some(b),
            )),
            res.1 ==> black_height(res.0) + 1 == black_height(Some(b)) && !is_red(res.0),
    {
        let ghost b0 = b;
        let mut b = b;
        proof {
            assert(bst(Some(b0)) && balanced(Some(b0)) && no_red_red(Some(b0)));
        }
        let has_left = b.left.is_some();
        let has_right = b.right.is_some();
        if !has_left && !has_right {
            let deficient = b.color == Color::Black;
            proof {
                assert(seq_of(b0.left) + seq_of(b0.right) =~= Seq::<u64>::empty());
                assert(seq_of(None::<Box<Node>>) =~= Seq::<u64>::empty());
            }
            (None, deficient)
        } else if has_left && !has_right {
            // one child: it must be red at the leaf level, so splicing it
            // up and blackening it absorbs the removed black node
            let mut c = b.left.take().unwrap();
            let ghost c0 = b0.left.unwrap();
            proof {
                assert(black_height(b0.right) == 0);
                assert(black_height(b0.left) == 0);
                assert(c0.color == Color::Red) by {
                    if c0.color == Color::Black {
                        assert(black_height(b0.left) >= 1);
                    }
                }
                assert(b0.color == Color::Black) by {
                    if b0.color == Color::Red {
                        assert(!is_red(b0.left));
                    }
                }
            }
            c.color = Color::Black;
            proof {
                lemma_recolor(c, c0);
                assert(seq_of(b0.left) + seq_of(b0.right) =~= seq_of(Some(c)));
                assert(black_height(Some(c)) == black_height(c0.left) + 1);
                assert(black_height(Some(b0)) == 1);
                assert(no_red_red(Some(c0)));
                assert(no_red_red(c0.left) && no_red_red(c0.right));
                assert(no_red_red(Some(c)));
                assert(balanced(Some(c0)));
                assert(black_height(c0.left) == black_height(c0.right));
                assert(balanced(c0.left) && balanced(c0.right));
                assert(balanced(Some(c)));
            }
            (Some(c), false)
        } else if !has_left && has_right {
            let mut c = b.right.take().unwrap();
            let ghost c0 = b0.right.unwrap();
            proof {
                assert(black_height(b0.left) == 0);
                assert(black_height(b0.right) == 0);
                assert(c0.color == Color::Red) by {
                    if c0.color == Color::Black {
                        assert(black_height(b0.right) >= 1);
                    }
                }
                assert(b0.color == Color::Black) by {
                    if b0.color == Color::Red {
                        assert(!is_red(b0.right));
                    }
                }
            }
            c.color = Color::Black;
            proof {
                lemma_recolor(c, c0);
                assert(seq_of(b0.left) + seq_of(b0.right) =~= seq_of(Some(c)));
                assert(black_height(Some(c)) == black_height(c0.left) + 1);
                assert(black_height(Some(b0)) == 1);
                assert(no_red_red(Some(c0)));
                assert(no_red_red(c0.left) && no_red_red(c0.right));
                assert(no_red_red(Some(c)));
                assert(balanced(Some(c0)));
                assert(black_height(c0.left) == black_height(c0.right));
                assert(balanced(c0.left) && balanced(c0.right));
                assert(balanced(Some(c)));
            }
            (Some(c), false)
        } else {
            // two children: splice the in-order successor into this slot
            let (m, d) = Self::remove_min(&mut b.right);
            b.content = m;
            proof {
                let rs0 = seq_of(b0.right);
                let rs1 = seq_of(b.right);
                assert(rs0 == seq![m] + rs1);
                assert(rs0[0] == m);
                assert(all_ge(rs0, b0.content));
                assert(b0.content <= m);
                assert(all_le(seq_of(b0.left), m)) by {
                    assert forall|i: int| 0 <= i < seq_of(b0.left).len() implies #[trigger] seq_of(
                        b0.left,
                    )[i] <= m by {
                        assert(seq_of(b0.left)[i] <= b0.content);
                    }
                }
                assert(all_ge(rs1, m)) by {
                    lemma_bst_sorted(b0.right);
                    assert forall|i: int| 0 <= i < rs1.len() implies m <= #[trigger] rs1[i] by {
                        assert(rs1[i] == rs0[i + 1]);
                        assert(rs0[0] <= rs0[i + 1]);
                    }
                }
                assert(bst(Some(b)));
                assert(seq_of(Some(b)) == seq_of(b0.left) + seq![m] + rs1);
                assert(seq_of(Some(b)) =~= seq_of(b0.left) + rs0);
            }
            if d {
                proof {
                    assert(b.color == Color::Red ==> !is_red(b.left) && !is_red(b.right));
                    assert(black_height(b.left) == black_height(b.right) + 1);
                }
                let ghost bmid = b;
                let (r, d2) = Self::remove_modify_tree(b, true);
                proof {
                    assert(intended_bh(bmid, true) == black_height(Some(b0)));
                }
                (Some(r), d2)
            } else {
                proof {
                    assert(balanced(Some(b)));
                    assert(no_red_red(Some(b)));
                    assert(black_height(Some(b)) == black_height(Some(b0)));
                }
                (Some(b), false)
            }
        }
    }

    /// Search for `value` from `node` downward (stopping at the topmost
    /// equal element, as the insertion tie rule demands) and remove it if
    /// present.  Returns whether it was found and whether the subtree is
    /// now one black node short.
    pub(crate) fn remove_link(node: &mut Link, value: u64) -> (res: (bool, bool))
        requires
            rb_valid(*old(node)),
        ensures
            bst(*final(node)),
            balanced(*final(node)),
            no_red_red(*final(node)),
            res.0 == seq_of(*old(node)).contains(value),
            seq_of(*final(node)) == remove_once(seq_of(*old(node)), value),
            !res.0 ==> *final(node) == *old(node) && !res.1,
            !res.1 ==> black_height(*final(node)) == black_height(*old(node)) && (is_red(
                *final(node),
            ) ==> is_red(*old(node))),
            res.1 ==> black_height(*final(node)) + 1 == black_height(*old(node)) && !is_red(
                *final(node),
            ),
        decreases *old(node),
    {
        match node.take() {
            None => {
                *node = None;
                proof {
                    assert(!seq_of(None::<Box<Node>>).contains(value));
                }
                (false, false)
            },
            Some(mut b) => {
                let ghost b0 = b;
                proof {
                    assert(bst(Some(b0)) && balanced(Some(b0)) && no_red_red(Some(b0)));
                }
                if value == b.content {
                    proof {
                        lemma_bst_sorted(b0.left);
                        lemma_remove_once_hit(seq_of(b0.left), b0.content, seq_of(b0.right));
                    }
                    let (r, d) = Self::remove_find_case(b);
                    *node = r;
                    (true, d)
                } else if value < b.content {
                    let (found, d) = Self::remove_link(&mut b.left, value);
                    proof {
                        lemma_remove_once_left(
                            seq_of(b0.left),
                            b0.content,
                            seq_of(b0.right),
                            value,
                        );
                        lemma_remove_once_bounds(seq_of(b0.left), value, b0.content);
                        assert(all_le(seq_of(b.left), b0.content));
                        assert(bst(Some(b)));
                        assert(seq_of(Some(b)) == remove_once(seq_of(Some(b0)), value));
                    }
                    if d {
                        proof {
                            assert(b.color == Color::Red ==> !is_red(b.left) && !is_red(b.right));
                            assert(black_height(b.right) == black_height(b.left) + 1);
                        }
                        let ghost bmid = b;
                        let (r, d2) = Self::remove_modify_tree(b, false);
                        proof {
                            assert(intended_bh(bmid, false) == black_height(Some(b0)));
                        }
                        *node = Some(r);
                        (found, d2)
                    } else {
                        proof {
                            assert(balanced(Some(b)));
                            assert(no_red_red(Some(b)));
                            assert(black_height(Some(b)) == black_height(Some(b0)));
                            if !found {
                                assert(b == b0);
                            }
                        }
                        *node = Some(b);
                        (found, false)
                    }
                } else {
                    let (found, d) = Self::remove_link(&mut b.right, value);
                    proof {
                        lemma_remove_once_right(
                            seq_of(b0.left),
                            b0.content,
                            seq_of(b0.right),
                            value,
                        );
                        lemma_remove_once_bounds(seq_of(b0.right), value, b0.content);
                        assert(all_ge(seq_of(b.right), b0.content));
                        assert(bst(Some(b)));
                        assert(seq_of(Some(b)) == remove_once(seq_of(Some(b0)), value));
                    }
                    if d {
                        proof {
                            assert(b.color == Color::Red ==> !is_red(b.left) && !is_red(b.right));
                            assert(black_height(b.left) == black_height(b.right) + 1);
                        }
                        let ghost bmid = b;
                        let (r, d2) = Self::remove_modify_tree(b, true);
                        proof {
                            assert(intended_bh(bmid, true) == black_height(Some(b0)));
                        }
                        *node = Some(r);
                        (found, d2)
                    } else {
                        proof {
                            assert(balanced(Some(b)));
                            assert(no_red_red(Some(b)));
                            assert(black_height(Some(b)) == black_height(Some(b0)));
                            if !found {
                                assert(b == b0);
                            }
                        }
                        *node = Some(b);
                        (found, false)
                    }
                }
            },
        }
    }

    /// Remove one occurrence of `value`: `true` exactly when it was
    /// present.  With duplicates, one copy goes and the rest stay; a
    /// missing value leaves the tree untouched.
    pub fn remove(&mut self, value: &u64) -> (found: bool)
        requires
            old(self).wf(),
        ensures
            final(self).wf(),
            found == old(self)@.contains(*value),
            final(self)@ == remove_once(old(self)@, *value),
            !found ==> *final(self) == *old(self),
            found ==> final(self)@.len() + 1 == old(self)@.len(),
            found ==> final(self)@.to_multiset() == old(self)@.to_multiset().remove(*value),
    {
        proof {
            lemma_tree_parts(*old(self));
            lemma_size_is_seq_len(old(self).root);
        }
        let mut root = self.root.take();
        let (found, _deficient) = Self::remove_link(&mut root, *value);
        self.root = root;
        if found {
            proof {
                lemma_size_is_seq_len(self.root);
                lemma_remove_once_bounds(seq_of(old(self).root), *value, *value);
                assert(self.n >= 1);
            }
            self.n = self.n - 1;
        }
        proof {
            lemma_tree_parts(*self);
            lemma_size_is_seq_len(self.root);
            lemma_remove_once_bounds(seq_of(old(self).root), *value, *value);
            crate::laws::lemma_view_sorted(*old(self));
            crate::laws::lemma_remove_once_multiset(old(self)@, *value);
        }
        found
    }
}

} // verus!

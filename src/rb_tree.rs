//! Red-black balancing: binary-search-tree insertion and deletion followed by
//! recoloring and rotation fix-ups that restore the color invariants.
//!
//! The fix-ups run on the way back up from the mutation point: each recursive
//! call returns its rebuilt subtree to the caller, which repairs it at the
//! parent (insertion) or with respect to the sibling (deletion).

use vstd::prelude::*;
use crate::bs_tree::{
    bst, keys, lemma_rotate_left_keeps_order, lemma_rotate_right_keeps_order, rotate_left, rotate_right,
    BinarySearchTree, Node, NodeColor,
};

verus! {

/// A present subtree whose root is red.
pub open spec fn is_red(t: Option<Box<Node>>) -> bool {
    match t {
        Some(n) => n.color == Some(NodeColor::Red),
        None => false,
    }
}

/// Black height along the leftmost path: black nodes counted, the subtree
/// root included, absent subtrees counting 0.
pub open spec fn bh(t: Option<Box<Node>>) -> nat
    decreases t,
{
    match t {
        None => 0,
        Some(n) => bh(n.left) + if n.color == Some(NodeColor::Red) {
            0nat
        } else {
            1nat
        },
    }
}

/// Every node has a color and both of its subtrees have the same black
/// height, so every path from a node down to an absent child meets the same
/// number of black nodes.
pub open spec fn black_balanced(t: Option<Box<Node>>) -> bool
    decreases t,
{
    match t {
        None => true,
        Some(n) => {
            &&& n.color is Some
            &&& bh(n.left) == bh(n.right)
            &&& black_balanced(n.left)
            &&& black_balanced(n.right)
        },
    }
}

/// No red node has a red child.
pub open spec fn no_red_red(t: Option<Box<Node>>) -> bool
    decreases t,
{
    match t {
        None => true,
        Some(n) => {
            &&& n.color == Some(NodeColor::Red) ==> !is_red(n.left) && !is_red(n.right)
            &&& no_red_red(n.left)
            &&& no_red_red(n.right)
        },
    }
}

/// The red-black invariants below the root; a red root may have one red
/// child, never two. This is the shape that insertion hands to a parent
/// before that parent repairs it.
pub open spec fn almost_no_red_red(t: Option<Box<Node>>) -> bool {
    match t {
        None => true,
        Some(n) => {
            &&& no_red_red(n.left)
            &&& no_red_red(n.right)
            &&& n.color == Some(NodeColor::Red) ==> !(is_red(n.left) && is_red(n.right))
        },
    }
}

/// Ordering, balanced black heights and no red-red edge.
pub open spec fn rb_subtree(t: Option<Box<Node>>) -> bool {
    &&& bst(t)
    &&& black_balanced(t)
    &&& no_red_red(t)
}

/// What a deletion below a parent hands back in place of a subtree whose
/// black height was `old_bh` and whose root was red when `old_red`: a valid
/// subtree with the same black height, or one less when `short` (the
/// "double-black" deficiency that the parent must repair). A shortened result
/// comes only from a black root, and a red result only from a red root.
pub open spec fn delete_result(old_bh: nat, old_red: bool, t: Option<Box<Node>>, short: bool) -> bool {
    &&& bst(t)
    &&& black_balanced(t)
    &&& no_red_red(t)
    &&& bh(t) + (if short {
        1nat
    } else {
        0nat
    }) == old_bh
    &&& is_red(t) ==> old_red && !short
    &&& short ==> !old_red
}

/// The black height a node had before one of its subtrees lost a black node:
/// that of its other subtree, plus one for a black node.
pub open spec fn bh_above(n: Node, other: Option<Box<Node>>) -> nat {
    bh(other) + if n.color == Some(NodeColor::Red) {
        0nat
    } else {
        1nat
    }
}

/// A red-black tree: an ordered tree whose nodes carry colors.
pub struct RedBlackTree {
    pub tree: BinarySearchTree,
}

impl View for RedBlackTree {
    type V = Set<i32>;

    open spec fn view(&self) -> Set<i32> {
        self.tree@
    }
}

/// Whether a subtree's root is present and red.
fn is_red_link(t: &Option<Box<Node>>) -> (r: bool)
    ensures
        r == is_red(*t),
{
    match t {
        Some(n) => matches!(n.color, Some(NodeColor::Red)),
        None => false,
    }
}

fn is_red_node(n: &Node) -> (r: bool)
    ensures
        r == (n.color == Some(NodeColor::Red)),
{
    matches!(n.color, Some(NodeColor::Red))
}

impl RedBlackTree {
    /// The red-black invariants: ordering, a black (or absent) root, no red
    /// node with a red child, and equal black heights on all paths.
    pub open spec fn wf(&self) -> bool {
        &&& rb_subtree(self.tree.root)
        &&& !is_red(self.tree.root)
    }

    /// An empty tree.
    pub fn new() -> (t: Self)
        ensures
            t.wf(),
            t@ == Set::<i32>::empty(),
            t.tree.root is None,
    {
        RedBlackTree { tree: BinarySearchTree::new() }
    }

    /// Repairs `n` after an insertion into its left subtree. When `n` is black
    /// and its red left child has a red child, either the uncle is red and the
    /// three are recolored (the red moves up to `n`), or the zig-zag is
    /// straightened by a left rotation of the child and `n` is rotated right.
    fn insert_fixup_left(n: Box<Node>) -> (r: Box<Node>)
        requires
            bst(Some(n)),
            black_balanced(Some(n)),
            no_red_red(n.right),
            almost_no_red_red(n.left),
            n.color == Some(NodeColor::Red) ==> no_red_red(n.left) && !is_red(n.right),
        ensures
            keys(Some(r)) == keys(Some(n)),
            bst(Some(r)),
            black_balanced(Some(r)),
            bh(Some(r)) == bh(Some(n)),
            n.color != Some(NodeColor::Red) ==> no_red_red(Some(r)),
            n.color == Some(NodeColor::Red) ==> r == n,
    {
        if is_red_node(&n) {
            return n;
        }
        let violation = match &n.left {
            Some(l) => is_red_node(l) && (is_red_link(&l.left) || is_red_link(&l.right)),
            None => false,
        };
        if !violation {
            assert(no_red_red(n.left));
            return n;
        }
        let ghost n0 = *n;
        let mut n = n;
        let mut l = n.left.take().unwrap();
        let ghost l0 = *l;
        if is_red_link(&n.right) {
            let mut u = n.right.take().unwrap();
            let ghost u0 = *u;
            proof {
                assert(black_balanced(n0.right) && black_balanced(n0.left));
                assert(black_balanced(Some(Box::new(u0))));
                assert(black_balanced(Some(Box::new(l0))));
            }
            l.color = Some(NodeColor::Black);
            u.color = Some(NodeColor::Black);
            proof {
                assert(keys(Some(l)) == keys(Some(Box::new(l0))));
                assert(keys(Some(u)) == keys(Some(Box::new(u0))));
                assert(bh(Some(l)) == bh(Some(Box::new(l0))) + 1);
                assert(bh(Some(u)) == bh(Some(Box::new(u0))) + 1);
                assert(black_balanced(Some(u)));
                assert(black_balanced(Some(l)));
                assert(no_red_red(Some(u)));
                assert(no_red_red(Some(l)));
                assert(bst(n0.left) && bst(n0.right));
                assert(bst(Some(l)) && bst(Some(u)));
            }
            n.left = Some(l);
            n.right = Some(u);
            n.color = Some(NodeColor::Red);
            n
        } else {
            let ghost u = n0.right;
            assert(black_balanced(n0.right) && black_balanced(n0.left));
            assert(black_balanced(Some(Box::new(l0))));
            assert(bh(n0.left) == bh(u));
            assert(bh(l0.left) == bh(u) && bh(l0.right) == bh(u));
            if is_red_link(&l.right) {
                proof {
                    lemma_rotate_left_keeps_order(*l);
                }
                l = rotate_left(l);
                proof {
                    let lr0 = l0.right.unwrap();
                    assert(black_balanced(l0.right) && black_balanced(l0.left));
                    assert(black_balanced(Some(lr0)));
                    assert(bh(lr0.left) == bh(u) && bh(lr0.right) == bh(u));
                    assert(!is_red(l0.left));
                    assert(!is_red(lr0.left) && !is_red(lr0.right));
                    let inner = l.left.unwrap();
                    assert(bh(Some(inner)) == bh(u));
                    assert(black_balanced(Some(inner)));
                    assert(no_red_red(Some(inner)));
                }
            }
            proof {
                assert(is_red(l.left));
                assert(no_red_red(l.left));
                assert(no_red_red(l.right));
                assert(!is_red(l.right));
                assert(bh(l.left) == bh(u));
                assert(bh(l.right) == bh(u));
                assert(black_balanced(l.left));
                assert(black_balanced(l.right));
                assert(keys(Some(l)) == keys(n0.left));
                assert(bst(Some(l)));
            }
            let ghost l1 = *l;
            l.color = Some(NodeColor::Black);
            n.left = Some(l);
            n.color = Some(NodeColor::Red);
            proof {
                assert(keys(Some(l)) == keys(Some(Box::new(l1))));
                assert(bst(Some(l)));
                assert(keys(Some(n)) =~= keys(Some(Box::new(n0))));
                assert(bst(Some(n)));
                lemma_rotate_right_keeps_order(*n);
            }
            let r = rotate_right(n);
            proof {
                let rr = r.right.unwrap();
                assert(rr.left == l1.right);
                assert(rr.right == u);
                assert(bh(Some(rr)) == bh(u));
                assert(black_balanced(Some(rr)));
                assert(no_red_red(Some(rr)));
                assert(r.left == l1.left);
            }
            r
        }
    }

    /// Repairs `n` after an insertion into its right subtree: the mirror image
    /// of `insert_fixup_left`.
    fn insert_fixup_right(n: Box<Node>) -> (r: Box<Node>)
        requires
            bst(Some(n)),
            black_balanced(Some(n)),
            no_red_red(n.left),
            almost_no_red_red(n.right),
            n.color == Some(NodeColor::Red) ==> no_red_red(n.right) && !is_red(n.left),
        ensures
            keys(Some(r)) == keys(Some(n)),
            bst(Some(r)),
            black_balanced(Some(r)),
            bh(Some(r)) == bh(Some(n)),
            n.color != Some(NodeColor::Red) ==> no_red_red(Some(r)),
            n.color == Some(NodeColor::Red) ==> r == n,
    {
        if is_red_node(&n) {
            return n;
        }
        let violation = match &n.right {
            Some(l) => is_red_node(l) && (is_red_link(&l.right) || is_red_link(&l.left)),
            None => false,
        };
        if !violation {
            assert(no_red_red(n.right));
            return n;
        }
        let ghost n0 = *n;
        let mut n = n;
        let mut l = n.right.take().unwrap();
        let ghost l0 = *l;
        if is_red_link(&n.left) {
            let mut u = n.left.take().unwrap();
            let ghost u0 = *u;
            proof {
                assert(black_balanced(n0.left) && black_balanced(n0.right));
                assert(black_balanced(Some(Box::new(u0))));
                assert(black_balanced(Some(Box::new(l0))));
            }
            l.color = Some(NodeColor::Black);
            u.color = Some(NodeColor::Black);
            proof {
                assert(keys(Some(l)) == keys(Some(Box::new(l0))));
                assert(keys(Some(u)) == keys(Some(Box::new(u0))));
                assert(bh(Some(l)) == bh(Some(Box::new(l0))) + 1);
                assert(bh(Some(u)) == bh(Some(Box::new(u0))) + 1);
                assert(black_balanced(Some(u)));
                assert(black_balanced(Some(l)));
                assert(no_red_red(Some(u)));
                assert(no_red_red(Some(l)));
                assert(bst(n0.right) && bst(n0.left));
                assert(bst(Some(l)) && bst(Some(u)));
            }
            n.right = Some(l);
            n.left = Some(u);
            n.color = Some(NodeColor::Red);
            n
        } else {
            let ghost u = n0.left;
            assert(black_balanced(n0.left) && black_balanced(n0.right));
            assert(black_balanced(Some(Box::new(l0))));
            assert(bh(n0.right) == bh(u));
            assert(bh(l0.right) == bh(u) && bh(l0.left) == bh(u));
            if is_red_link(&l.left) {
                proof {
                    lemma_rotate_right_keeps_order(*l);
                }
                l = rotate_right(l);
                proof {
                    let lr0 = l0.left.unwrap();
                    assert(black_balanced(l0.left) && black_balanced(l0.right));
                    assert(black_balanced(Some(lr0)));
                    assert(bh(lr0.right) == bh(u) && bh(lr0.left) == bh(u));
                    assert(!is_red(l0.right));
                    assert(!is_red(lr0.right) && !is_red(lr0.left));
                    let inner = l.right.unwrap();
                    assert(bh(Some(inner)) == bh(u));
                    assert(black_balanced(Some(inner)));
                    assert(no_red_red(Some(inner)));
                }
            }
            proof {
                assert(is_red(l.right));
                assert(no_red_red(l.right));
                assert(no_red_red(l.left));
                assert(!is_red(l.left));
                assert(bh(l.right) == bh(u));
                assert(bh(l.left) == bh(u));
                assert(black_balanced(l.right));
                assert(black_balanced(l.left));
                assert(keys(Some(l)) == keys(n0.right));
                assert(bst(Some(l)));
            }
            let ghost l1 = *l;
            l.color = Some(NodeColor::Black);
            n.right = Some(l);
            n.color = Some(NodeColor::Red);
            proof {
                assert(keys(Some(l)) == keys(Some(Box::new(l1))));
                assert(bst(Some(l)));
                assert(keys(Some(n)) =~= keys(Some(Box::new(n0))));
                assert(bst(Some(n)));
                lemma_rotate_left_keeps_order(*n);
            }
            let r = rotate_left(n);
            proof {
                let rr = r.left.unwrap();
                assert(rr.right == l1.left);
                assert(rr.left == u);
                assert(bh(Some(rr)) == bh(u));
                assert(black_balanced(Some(rr)));
                assert(no_red_red(Some(rr)));
                assert(r.right == l1.right);
            }
            r
        }
    }

    /// Inserts an absent key below `t` as a red leaf, then repairs each
    /// ancestor on the way back up. The black height is kept; a red-rooted
    /// result may carry one red child, for the caller to repair.
    fn insert_node(t: Option<Box<Node>>, key: i32) -> (r: Option<Box<Node>>)
        requires
            rb_subtree(t),
            !keys(t).contains(key),
        ensures
            r is Some,
            keys(r) == keys(t).insert(key),
            bst(r),
            black_balanced(r),
            bh(r) == bh(t),
            !is_red(t) ==> no_red_red(r),
            is_red(t) ==> is_red(r) && almost_no_red_red(r),
        decreases t,
    {
        match t {
            None => {
                let leaf = Node { key, left: None, right: None, height: 1, color: Some(NodeColor::Red) };
                proof {
                    assert(keys(Some(Box::new(leaf))) =~= Set::<i32>::empty().insert(key));
                }
                Some(Box::new(leaf))
            },
            Some(node) => {
                let ghost n0 = *node;
                let mut n = node;
                if key < n.key {
                    let sub = n.left.take();
                    assert(!is_red(sub) || n0.color != Some(NodeColor::Red));
                    let new_sub = Self::insert_node(sub, key);
                    n.left = new_sub;
                    proof {
                        assert forall|k: i32| keys(n.left).contains(k) implies k < n.key by {
                            if k != key {
                                assert(keys(n0.left).contains(k));
                            }
                        }
                        assert(keys(Some(n)) =~= keys(Some(Box::new(n0))).insert(key));
                    }
                    Some(Self::insert_fixup_left(n))
                } else {
                    let sub = n.right.take();
                    let new_sub = Self::insert_node(sub, key);
                    n.right = new_sub;
                    proof {
                        assert forall|k: i32| keys(n.right).contains(k) implies n.key < k by {
                            if k != key {
                                assert(keys(n0.right).contains(k));
                            }
                        }
                        assert(keys(Some(n)) =~= keys(Some(Box::new(n0))).insert(key));
                    }
                    Some(Self::insert_fixup_right(n))
                }
            },
        }
    }

    /// Deletion fix-up, cases B to D, for a node whose left subtree `x` is one
    /// black node short and whose sibling `s` (the right child) is black.
    /// B: both children of `s` black: `s` turns red and the deficiency moves up
    /// to `n`, absorbed there if `n` is red. C: the near child of `s` red, the
    /// far one black: they swap colors and `s` is rotated right, which leads to
    /// D: the far child red: `s` takes the color of `n`, `n` and the far child
    /// turn black and `n` is rotated left, which resolves the deficiency.
    fn fix_black_sibling_left(n: Box<Node>) -> (r: (Box<Node>, bool))
        requires
            bst(Some(n)),
            n.color is Some,
            black_balanced(n.left),
            black_balanced(n.right),
            no_red_red(n.left),
            no_red_red(n.right),
            bh(n.left) + 1 == bh(n.right),
            !is_red(n.left),
            !is_red(n.right),
        ensures
            keys(Some(r.0)) == keys(Some(n)),
            delete_result(bh_above(*n, n.right), n.color == Some(NodeColor::Red), Some(r.0), r.1),
    {
        let ghost n0 = *n;
        let mut n = n;
        let mut s = n.right.take().unwrap();
        let ghost s0 = *s;
        proof {
            assert(black_balanced(Some(Box::new(s0))));
            assert(no_red_red(Some(Box::new(s0))));
            assert(bst(n0.right) && bst(n0.left));
            assert(bst(Some(Box::new(s0))));
        }
        if !is_red_link(&s.left) && !is_red_link(&s.right) {
            s.color = Some(NodeColor::Red);
            proof {
                assert(keys(Some(s)) == keys(Some(Box::new(s0))));
                assert(bst(Some(s)));
                assert(black_balanced(Some(s)));
                assert(no_red_red(Some(s)));
            }
            n.right = Some(s);
            if is_red_node(&n) {
                n.color = Some(NodeColor::Black);
                assert(keys(Some(n)) =~= keys(Some(Box::new(n0))));
                (n, false)
            } else {
                assert(keys(Some(n)) =~= keys(Some(Box::new(n0))));
                (n, true)
            }
        } else {
            let ghost h = bh(n0.left);
            if !is_red_link(&s.right) {
                let mut near = s.left.take().unwrap();
                let ghost near0 = *near;
                proof {
                    assert(black_balanced(s0.left) && no_red_red(s0.left) && bst(s0.left));
                    assert(bh(near0.left) == h && bh(near0.right) == h);
                    assert(!is_red(near0.left) && !is_red(near0.right));
                }
                near.color = Some(NodeColor::Black);
                proof {
                    assert(keys(Some(near)) == keys(Some(Box::new(near0))));
                    assert(bst(Some(near)));
                }
                s.left = Some(near);
                s.color = Some(NodeColor::Red);
                proof {
                    assert(keys(Some(s)) =~= keys(Some(Box::new(s0))));
                    assert(bst(Some(s)));
                    lemma_rotate_right_keeps_order(*s);
                }
                s = rotate_right(s);
                proof {
                    let inner = s.right.unwrap();
                    assert(bh(Some(inner)) == h);
                    assert(black_balanced(Some(inner)));
                    assert(no_red_red(Some(inner)));
                }
            }
            let ghost s1 = *s;
            proof {
                assert(bh(s1.left) == h && bh(s1.right) == h);
                assert(is_red(s1.right));
                assert(black_balanced(s1.left) && black_balanced(s1.right));
                assert(no_red_red(s1.left) && no_red_red(s1.right));
                assert(bst(s1.left) && bst(s1.right));
            }
            s.color = n.color;
            n.color = Some(NodeColor::Black);
            let mut far = s.right.take().unwrap();
            let ghost far0 = *far;
            proof {
                assert(bh(far0.left) == h && bh(far0.right) == h);
                assert(black_balanced(far0.left) && black_balanced(far0.right));
                assert(no_red_red(far0.left) && no_red_red(far0.right));
                assert(bst(far0.left) && bst(far0.right));
            }
            far.color = Some(NodeColor::Black);
            proof {
                assert(keys(Some(far)) == keys(Some(Box::new(far0))));
                assert(bst(Some(far)));
                assert(black_balanced(Some(far)));
                assert(no_red_red(Some(far)));
            }
            s.right = Some(far);
            proof {
                assert(keys(Some(s)) =~= keys(Some(Box::new(s1))));
                assert(bst(Some(s)));
            }
            n.right = Some(s);
            proof {
                assert(keys(Some(n)) =~= keys(Some(Box::new(n0))));
                assert(bst(Some(n)));
                lemma_rotate_left_keeps_order(*n);
            }
            let r = rotate_left(n);
            proof {
                let inner = r.left.unwrap();
                assert(bh(Some(inner)) == h + 1);
                assert(black_balanced(Some(inner)));
                assert(no_red_red(Some(inner)));
            }
            (r, false)
        }
    }

    /// Deletion fix-up for a node whose left subtree is one black node short.
    /// Case A, a red sibling: the sibling turns black, `n` red, and `n` is
    /// rotated left, which gives `n` a black sibling; cases B to D follow at
    /// `n`, which is red and so absorbs the deficiency.
    fn delete_fixup_left(n: Box<Node>) -> (r: (Box<Node>, bool))
        requires
            bst(Some(n)),
            n.color is Some,
            black_balanced(n.left),
            black_balanced(n.right),
            no_red_red(n.left),
            no_red_red(n.right),
            bh(n.left) + 1 == bh(n.right),
            !is_red(n.left),
            n.color == Some(NodeColor::Red) ==> !is_red(n.right),
        ensures
            keys(Some(r.0)) == keys(Some(n)),
            delete_result(bh_above(*n, n.right), n.color == Some(NodeColor::Red), Some(r.0), r.1),
    {
        if !is_red_link(&n.right) {
            return Self::fix_black_sibling_left(n);
        }
        let ghost n0 = *n;
        let mut n = n;
        let mut s = n.right.take().unwrap();
        let ghost s0 = *s;
        proof {
            assert(black_balanced(Some(Box::new(s0))));
            assert(no_red_red(Some(Box::new(s0))));
            assert(bst(n0.right) && bst(n0.left));
            assert(bst(Some(Box::new(s0))));
            assert(bst(s0.left) && bst(s0.right));
            assert(black_balanced(s0.left) && black_balanced(s0.right));
            assert(no_red_red(s0.left) && no_red_red(s0.right));
        }
        s.color = Some(NodeColor::Black);
        proof {
            assert(keys(Some(s)) == keys(Some(Box::new(s0))));
            assert(bst(Some(s)));
        }
        n.color = Some(NodeColor::Red);
        n.right = Some(s);
        proof {
            assert(keys(Some(n)) =~= keys(Some(Box::new(n0))));
            assert(bst(Some(n)));
            lemma_rotate_left_keeps_order(*n);
        }
        let mut top = rotate_left(n);
        let ghost top0 = *top;
        let inner = top.left.take().unwrap();
        let ghost inner0 = *inner;
        proof {
            assert(bst(top0.left));
            assert(bst(Some(inner)));
        }
        let (fixed, short) = Self::fix_black_sibling_left(inner);
        top.left = Some(fixed);
        proof {
            assert(!short);
            assert(keys(Some(top)) =~= keys(Some(Box::new(top0))));
            assert(bst(Some(top)));
        }
        (top, false)
    }

    /// Cases B to D for a node whose right subtree is one black node short:
    /// the mirror image of `fix_black_sibling_left`.
    fn fix_black_sibling_right(n: Box<Node>) -> (r: (Box<Node>, bool))
        requires
            bst(Some(n)),
            n.color is Some,
            black_balanced(n.right),
            black_balanced(n.left),
            no_red_red(n.right),
            no_red_red(n.left),
            bh(n.right) + 1 == bh(n.left),
            !is_red(n.right),
            !is_red(n.left),
        ensures
            keys(Some(r.0)) == keys(Some(n)),
            delete_result(bh_above(*n, n.left), n.color == Some(NodeColor::Red), Some(r.0), r.1),
    {
        let ghost n0 = *n;
        let mut n = n;
        let mut s = n.left.take().unwrap();
        let ghost s0 = *s;
        proof {
            assert(black_balanced(Some(Box::new(s0))));
            assert(no_red_red(Some(Box::new(s0))));
            assert(bst(n0.left) && bst(n0.right));
            assert(bst(Some(Box::new(s0))));
        }
        if !is_red_link(&s.right) && !is_red_link(&s.left) {
            s.color = Some(NodeColor::Red);
            proof {
                assert(keys(Some(s)) == keys(Some(Box::new(s0))));
                assert(bst(Some(s)));
                assert(black_balanced(Some(s)));
                assert(no_red_red(Some(s)));
            }
            n.left = Some(s);
            if is_red_node(&n) {
                n.color = Some(NodeColor::Black);
                assert(keys(Some(n)) =~= keys(Some(Box::new(n0))));
                assert(bh(Some(n)) == bh(Some(s)) + 1);
                assert(delete_result(bh_above(n0, n0.left), n0.color == Some(NodeColor::Red), Some(n), false));
                (n, false)
            } else {
                assert(keys(Some(n)) =~= keys(Some(Box::new(n0))));
                assert(bh(Some(n)) == bh(Some(s)) + 1);
                assert(delete_result(bh_above(n0, n0.left), n0.color == Some(NodeColor::Red), Some(n), true));
                (n, true)
            }
        } else {
            let ghost h = bh(n0.right);
            if !is_red_link(&s.left) {
                let mut near = s.right.take().unwrap();
                let ghost near0 = *near;
                proof {
                    assert(black_balanced(s0.right) && no_red_red(s0.right) && bst(s0.right));
                    assert(bh(near0.right) == h && bh(near0.left) == h);
                    assert(!is_red(near0.right) && !is_red(near0.left));
                }
                near.color = Some(NodeColor::Black);
                proof {
                    assert(keys(Some(near)) == keys(Some(Box::new(near0))));
                    assert(bst(Some(near)));
                }
                s.right = Some(near);
                s.color = Some(NodeColor::Red);
                proof {
                    assert(keys(Some(s)) =~= keys(Some(Box::new(s0))));
                    assert(bst(Some(s)));
                    lemma_rotate_left_keeps_order(*s);
                }
                s = rotate_left(s);
                proof {
                    let inner = s.left.unwrap();
                    assert(bh(Some(inner)) == h);
                    assert(black_balanced(Some(inner)));
                    assert(no_red_red(Some(inner)));
                }
            }
            let ghost s1 = *s;
            proof {
                assert(bh(s1.right) == h && bh(s1.left) == h);
                assert(is_red(s1.left));
                assert(black_balanced(s1.right) && black_balanced(s1.left));
                assert(no_red_red(s1.right) && no_red_red(s1.left));
                assert(bst(s1.right) && bst(s1.left));
            }
            s.color = n.color;
            n.color = Some(NodeColor::Black);
            let mut far = s.left.take().unwrap();
            let ghost far0 = *far;
            proof {
                assert(bh(far0.right) == h && bh(far0.left) == h);
                assert(black_balanced(far0.right) && black_balanced(far0.left));
                assert(no_red_red(far0.right) && no_red_red(far0.left));
                assert(bst(far0.right) && bst(far0.left));
            }
            far.color = Some(NodeColor::Black);
            proof {
                assert(keys(Some(far)) == keys(Some(Box::new(far0))));
                assert(bst(Some(far)));
                assert(black_balanced(Some(far)));
                assert(no_red_red(Some(far)));
            }
            s.left = Some(far);
            proof {
                assert(keys(Some(s)) =~= keys(Some(Box::new(s1))));
                assert(bst(Some(s)));
            }
            n.left = Some(s);
            proof {
                assert(keys(Some(n)) =~= keys(Some(Box::new(n0))));
                assert(bst(Some(n)));
                lemma_rotate_right_keeps_order(*n);
            }
            let r = rotate_right(n);
            proof {
                let inner = r.right.unwrap();
                assert(bh(Some(inner)) == h + 1);
                assert(black_balanced(Some(inner)));
                assert(no_red_red(Some(inner)));
                assert(bst(Some(r)));
                assert(black_balanced(Some(r)));
                assert(no_red_red(Some(r)));
                assert(bh(Some(r)) == bh_above(n0, n0.left));
                assert(is_red(Some(r)) ==> n0.color == Some(NodeColor::Red));
            }
            (r, false)
        }
    }

    /// Deletion fix-up for a node whose right subtree is one black node short:
    /// the mirror image of `delete_fixup_left`.
    fn delete_fixup_right(n: Box<Node>) -> (r: (Box<Node>, bool))
        requires
            bst(Some(n)),
            n.color is Some,
            black_balanced(n.right),
            black_balanced(n.left),
            no_red_red(n.right),
            no_red_red(n.left),
            bh(n.right) + 1 == bh(n.left),
            !is_red(n.right),
            n.color == Some(NodeColor::Red) ==> !is_red(n.left),
        ensures
            keys(Some(r.0)) == keys(Some(n)),
            delete_result(bh_above(*n, n.left), n.color == Some(NodeColor::Red), Some(r.0), r.1),
    {
        if !is_red_link(&n.left) {
            return Self::fix_black_sibling_right(n);
        }
        let ghost n0 = *n;
        let mut n = n;
        let mut s = n.left.take().unwrap();
        let ghost s0 = *s;
        proof {
            assert(black_balanced(Some(Box::new(s0))));
            assert(no_red_red(Some(Box::new(s0))));
            assert(bst(n0.left) && bst(n0.right));
            assert(bst(Some(Box::new(s0))));
            assert(bst(s0.right) && bst(s0.left));
            assert(black_balanced(s0.right) && black_balanced(s0.left));
            assert(no_red_red(s0.right) && no_red_red(s0.left));
        }
        s.color = Some(NodeColor::Black);
        proof {
            assert(keys(Some(s)) == keys(Some(Box::new(s0))));
            assert(bst(Some(s)));
        }
        n.color = Some(NodeColor::Red);
        n.left = Some(s);
        proof {
            assert(keys(Some(n)) =~= keys(Some(Box::new(n0))));
            assert(bst(Some(n)));
            lemma_rotate_right_keeps_order(*n);
        }
        let mut top = rotate_right(n);
        let ghost top0 = *top;
        let inner = top.right.take().unwrap();
        let ghost inner0 = *inner;
        proof {
            assert(bst(top0.right));
            assert(bst(Some(inner)));
        }
        let (fixed, short) = Self::fix_black_sibling_right(inner);
        top.right = Some(fixed);
        proof {
            assert(!short);
            assert(keys(Some(top)) =~= keys(Some(Box::new(top0))));
            assert(bst(Some(top)));
        }
        (top, false)
    }

    /// Inserts `key`; a key already present leaves the tree as it is.
    pub fn insert(&mut self, key: i32)
        requires
            old(self).wf(),
        ensures
            final(self).wf(),
            final(self)@ == old(self)@.insert(key),
            old(self)@.contains(key) ==> *final(self) == *old(self),
    {
        if self.tree.search(key).is_some() {
            return;
        }
        let root = self.tree.root.take();
        let mut new_root = match Self::insert_node(root, key) {
            Some(r) => r,
            None => {
                assert(false);
                return;
            },
        };
        let ghost r0 = *new_root;
        new_root.color = Some(NodeColor::Black);
        proof {
            assert(keys(Some(new_root)) == keys(Some(Box::new(r0))));
            assert(bst(Some(new_root)));
            assert(black_balanced(Some(new_root)));
            assert(no_red_red(Some(new_root)));
        }
        self.tree.root = Some(new_root);
    }

    /// Removes the root of a subtree whose left child is absent; its right
    /// child, at most a red leaf, takes its place and turns black. Removing a
    /// black root with no such child leaves the subtree one black node short.
    fn splice_out_with_right(n: Box<Node>) -> (r: (Option<Box<Node>>, bool))
        requires
            rb_subtree(Some(n)),
            n.left is None,
        ensures
            keys(r.0) == keys(Some(n)).remove(n.key),
            delete_result(bh(Some(n)), is_red(Some(n)), r.0, r.1),
    {
        let ghost n0 = *n;
        proof {
            assert(!keys(n0.right).contains(n0.key));
            assert(keys(n0.left) =~= Set::<i32>::empty());
            assert(keys(Some(n)) =~= keys(n0.right).insert(n0.key));
            assert(bh(n0.right) == 0);
            assert(no_red_red(n0.right) && black_balanced(n0.right) && bst(n0.right));
        }
        let red = is_red_node(&n);
        let node = *n;
        match node.right {
            Some(c) => {
                let mut c = c;
                let ghost c0 = *c;
                proof {
                    assert(is_red(Some(Box::new(c0))));
                    assert(bh(c0.left) == 0 && bh(c0.right) == 0);
                    assert(c0.left is None && c0.right is None);
                }
                c.color = Some(NodeColor::Black);
                proof {
                    assert(keys(Some(c)) =~= keys(Some(Box::new(c0))));
                }
                (Some(c), false)
            },
            None => {
                assert(keys(None) =~= keys(Some(Box::new(n0))).remove(n0.key));
                (None, !red)
            },
        }
    }

    /// Removes the root of a subtree whose right child is absent: the mirror
    /// image of `splice_out_with_right`.
    fn splice_out_with_left(n: Box<Node>) -> (r: (Option<Box<Node>>, bool))
        requires
            rb_subtree(Some(n)),
            n.right is None,
        ensures
            keys(r.0) == keys(Some(n)).remove(n.key),
            delete_result(bh(Some(n)), is_red(Some(n)), r.0, r.1),
    {
        let ghost n0 = *n;
        proof {
            assert(!keys(n0.left).contains(n0.key));
            assert(keys(n0.right) =~= Set::<i32>::empty());
            assert(keys(Some(n)) =~= keys(n0.left).insert(n0.key));
            assert(bh(n0.left) == 0);
            assert(no_red_red(n0.left) && black_balanced(n0.left) && bst(n0.left));
        }
        let red = is_red_node(&n);
        let node = *n;
        match node.left {
            Some(c) => {
                let mut c = c;
                let ghost c0 = *c;
                proof {
                    assert(is_red(Some(Box::new(c0))));
                    assert(bh(c0.left) == 0 && bh(c0.right) == 0);
                    assert(c0.left is None && c0.right is None);
                }
                c.color = Some(NodeColor::Black);
                proof {
                    assert(keys(Some(c)) =~= keys(Some(Box::new(c0))));
                }
                (Some(c), false)
            },
            None => {
                assert(keys(None) =~= keys(Some(Box::new(n0))).remove(n0.key));
                (None, !red)
            },
        }
    }

    /// Removes the smallest key of a subtree (its in-order successor position
    /// when the subtree is a right subtree) and returns it with the repaired
    /// remainder.
    fn delete_min(t: Box<Node>) -> (r: (i32, Option<Box<Node>>, bool))
        requires
            rb_subtree(Some(t)),
        ensures
            keys(Some(t)).contains(r.0),
            forall|k: i32| keys(Some(t)).contains(k) ==> r.0 <= k,
            keys(r.1) == keys(Some(t)).remove(r.0),
            delete_result(bh(Some(t)), is_red(Some(t)), r.1, r.2),
        decreases t,
    {
        let ghost n0 = *t;
        let mut n = t;
        if n.left.is_none() {
            let key = n.key;
            proof {
                assert(keys(n0.left) =~= Set::<i32>::empty());
                assert forall|k: i32| keys(Some(Box::new(n0))).contains(k) implies key <= k by {
                    if k != key {
                        assert(keys(n0.right).contains(k));
                    }
                }
            }
            let (rest, short) = Self::splice_out_with_right(n);
            return (key, rest, short);
        }
        let l = n.left.take().unwrap();
        proof {
            assert(rb_subtree(n0.left));
        }
        let (m, new_l, short) = Self::delete_min(l);
        n.left = new_l;
        proof {
            assert forall|k: i32| keys(Some(Box::new(n0))).contains(k) implies m <= k by {
                if keys(n0.left).contains(k) {
                } else if k == n0.key {
                    assert(keys(n0.left).contains(m));
                } else {
                    assert(keys(n0.right).contains(k));
                    assert(keys(n0.left).contains(m));
                }
            }
            assert(keys(n0.left).contains(m));
            assert(m != n0.key);
            assert(!keys(n0.right).contains(m));
            assert(keys(Some(n)) =~= keys(Some(Box::new(n0))).remove(m));
            assert(bst(Some(n)));
        }
        if short {
            let (fixed, s) = Self::delete_fixup_left(n);
            (m, Some(fixed), s)
        } else {
            (m, Some(n), false)
        }
    }

    /// Deletes `key`, present below `t`, and repairs each ancestor on the way
    /// back up. A node with two children takes the key of its in-order
    /// successor, which is removed from the right subtree instead.
    fn delete_node(t: Box<Node>, key: i32) -> (r: (Option<Box<Node>>, bool))
        requires
            rb_subtree(Some(t)),
            keys(Some(t)).contains(key),
        ensures
            keys(r.0) == keys(Some(t)).remove(key),
            delete_result(bh(Some(t)), is_red(Some(t)), r.0, r.1),
        decreases t,
    {
        let ghost n0 = *t;
        let mut n = t;
        proof {
            assert(rb_subtree(n0.left) && rb_subtree(n0.right));
        }
        if key < n.key {
            assert(!keys(n0.right).contains(key));
            assert(keys(n0.left).contains(key));
            let l = n.left.take().unwrap();
            let (new_l, short) = Self::delete_node(l, key);
            n.left = new_l;
            proof {
                assert(!keys(n0.right).contains(key));
                assert(keys(Some(n)) =~= keys(Some(Box::new(n0))).remove(key));
                assert(bst(Some(n)));
            }
            if short {
                let (fixed, s) = Self::delete_fixup_left(n);
                (Some(fixed), s)
            } else {
                (Some(n), false)
            }
        } else if n.key < key {
            assert(!keys(n0.left).contains(key));
            assert(keys(n0.right).contains(key));
            let r = n.right.take().unwrap();
            let (new_r, short) = Self::delete_node(r, key);
            n.right = new_r;
            proof {
                assert(!keys(n0.left).contains(key));
                assert(keys(Some(n)) =~= keys(Some(Box::new(n0))).remove(key));
                assert(bst(Some(n)));
            }
            if short {
                let (fixed, s) = Self::delete_fixup_right(n);
                (Some(fixed), s)
            } else {
                (Some(n), false)
            }
        } else if n.left.is_none() {
            Self::splice_out_with_right(n)
        } else if n.right.is_none() {
            Self::splice_out_with_left(n)
        } else {
            let r = n.right.take().unwrap();
            let (m, new_r, short) = Self::delete_min(r);
            n.key = m;
            n.right = new_r;
            proof {
                assert(keys(n0.right).contains(m));
                assert(!keys(n0.left).contains(key));
                assert(!keys(n0.right).contains(key));
                assert forall|k: i32| keys(n.left).contains(k) implies k < m by {
                    assert(k < key);
                }
                assert forall|k: i32| keys(n.right).contains(k) implies m < k by {
                    assert(keys(n0.right).contains(k));
                }
                assert(keys(Some(n)) =~= keys(Some(Box::new(n0))).remove(key));
                assert(bst(Some(n)));
            }
            if short {
                let (fixed, s) = Self::delete_fixup_right(n);
                (Some(fixed), s)
            } else {
                (Some(n), false)
            }
        }
    }

    /// Deletes `key` and reports whether it was present; an absent key leaves
    /// the tree as it is.
    pub fn delete(&mut self, key: i32) -> (found: bool)
        requires
            old(self).wf(),
        ensures
            final(self).wf(),
            found == old(self)@.contains(key),
            final(self)@ == old(self)@.remove(key),
            !found ==> *final(self) == *old(self),
    {
        if self.tree.search(key).is_none() {
            assert(self@.remove(key) =~= self@);
            return false;
        }
        let root = match self.tree.root.take() {
            Some(r) => r,
            None => {
                assert(false);
                return false;
            },
        };
        let (new_root, _short) = Self::delete_node(root, key);
        self.tree.root = new_root;
        true
    }
}

} // verus!

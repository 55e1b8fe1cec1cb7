//! AVL balancing: binary-search-tree insertion and deletion with heights
//! recomputed, and rotations applied, at every ancestor on the way back up.

use vstd::prelude::*;
use crate::bs_tree::{
    bst, ht, keys, lemma_rotate_left_keeps_order, lemma_rotate_right_keeps_order, max_nat,
    rotate_left_spec, rotate_right_spec, stored_ht, BinarySearchTree, Node,
};
use crate::bs_tree;

verus! {

/// Every node records its true height and the heights of its two subtrees
/// differ by at most one.
pub open spec fn avl(t: Option<Box<Node>>) -> bool
    decreases t,
{
    match t {
        None => true,
        Some(n) => {
            &&& n.height == 1 + max_nat(ht(n.left), ht(n.right))
            &&& -1 <= ht(n.left) - ht(n.right) <= 1
            &&& avl(n.left)
            &&& avl(n.right)
        },
    }
}

/// Height that `update_height` gives a node with these children.
pub open spec fn node_height(l: Option<Box<Node>>, r: Option<Box<Node>>) -> int {
    1 + if stored_ht(l) >= stored_ht(r) {
        stored_ht(l)
    } else {
        stored_ht(r)
    }
}

/// A tree balanced by heights.
pub struct AVLTree {
    pub tree: BinarySearchTree,
}

impl View for AVLTree {
    type V = Set<i32>;

    open spec fn view(&self) -> Set<i32> {
        self.tree@
    }
}

/// In an AVL subtree the recorded height is the true height.
pub proof fn lemma_stored_height(t: Option<Box<Node>>)
    requires
        avl(t),
    ensures
        stored_ht(t) == ht(t),
{
}

impl AVLTree {
    /// Ordering, and the AVL height balance at every node.
    pub open spec fn wf(&self) -> bool {
        &&& bst(self.tree.root)
        &&& avl(self.tree.root)
    }

    /// An empty tree.
    pub fn new() -> (t: Self)
        ensures
            t.wf(),
            t@ == Set::<i32>::empty(),
            t.tree.root is None,
    {
        AVLTree { tree: BinarySearchTree::new() }
    }

    /// Left rotation followed by recomputing the heights of the two nodes
    /// that moved, lower one first. The right child must be present.
    pub fn rotate_left(node: Box<Node>) -> (r: Box<Node>)
        requires
            node.right is Some,
            0 <= stored_ht(node.left),
            0 <= stored_ht(node.right.unwrap().left),
            0 <= stored_ht(node.right.unwrap().right) < i32::MAX,
            stored_ht(node.left) + 2 <= i32::MAX,
            stored_ht(node.right.unwrap().left) + 2 <= i32::MAX,
        ensures
            r.key == rotate_left_spec(*node).key,
            r.right == rotate_left_spec(*node).right,
            r.color == rotate_left_spec(*node).color,
            r.left is Some,
            r.left.unwrap().key == node.key,
            r.left.unwrap().left == node.left,
            r.left.unwrap().right == node.right.unwrap().left,
            r.left.unwrap().color == node.color,
            r.left.unwrap().height == node_height(node.left, node.right.unwrap().left),
            r.height == node_height(r.left, r.right),
            keys(Some(r)) == keys(Some(node)),
            bst(Some(node)) ==> bst(Some(r)),
    {
        proof {
            lemma_rotate_left_keeps_order(*node);
        }
        let ghost spec_top = rotate_left_spec(*node);
        let mut top = bs_tree::rotate_left(node);
        let mut inner = top.left.take().unwrap();
        BinarySearchTree::update_height(&mut inner);
        proof {
            assert(keys(Some(inner)) == keys(spec_top.left));
            assert(bst(spec_top.left) ==> bst(Some(inner)));
        }
        top.left = Some(inner);
        BinarySearchTree::update_height(&mut top);
        proof {
            assert(keys(Some(top)) =~= keys(Some(Box::new(spec_top))));
        }
        top
    }

    /// Right rotation followed by recomputing the heights of the two nodes
    /// that moved. The left child must be present.
    pub fn rotate_right(node: Box<Node>) -> (r: Box<Node>)
        requires
            node.left is Some,
            0 <= stored_ht(node.right),
            0 <= stored_ht(node.left.unwrap().right),
            0 <= stored_ht(node.left.unwrap().left) < i32::MAX,
            stored_ht(node.right) + 2 <= i32::MAX,
            stored_ht(node.left.unwrap().right) + 2 <= i32::MAX,
        ensures
            r.key == rotate_right_spec(*node).key,
            r.left == rotate_right_spec(*node).left,
            r.color == rotate_right_spec(*node).color,
            r.right is Some,
            r.right.unwrap().key == node.key,
            r.right.unwrap().right == node.right,
            r.right.unwrap().left == node.left.unwrap().right,
            r.right.unwrap().color == node.color,
            r.right.unwrap().height == node_height(node.left.unwrap().right, node.right),
            r.height == node_height(r.left, r.right),
            keys(Some(r)) == keys(Some(node)),
            bst(Some(node)) ==> bst(Some(r)),
    {
        proof {
            lemma_rotate_right_keeps_order(*node);
        }
        let ghost spec_top = rotate_right_spec(*node);
        let mut top = bs_tree::rotate_right(node);
        let mut inner = top.right.take().unwrap();
        BinarySearchTree::update_height(&mut inner);
        proof {
            assert(keys(Some(inner)) == keys(spec_top.right));
            assert(bst(spec_top.right) ==> bst(Some(inner)));
        }
        top.right = Some(inner);
        BinarySearchTree::update_height(&mut top);
        proof {
            assert(keys(Some(top)) =~= keys(Some(Box::new(spec_top))));
        }
        top
    }

    /// Restores a node whose left subtree is two levels taller than its right
    /// one: a left child that leans right is first rotated left (the
    /// left-right case), then the node is rotated right.
    fn rebalance_left_heavy(node: Box<Node>) -> (r: Box<Node>)
        requires
            bst(Some(node)),
            avl(node.left),
            avl(node.right),
            ht(node.left) == ht(node.right) + 2,
            ht(node.left) < i32::MAX,
            node.height == node_height(node.left, node.right),
        ensures
            keys(Some(r)) == keys(Some(node)),
            bst(Some(r)),
            avl(Some(r)),
            ht(node.left) <= ht(Some(r)) <= ht(node.left) + 1,
    {
        let ghost n0 = *node;
        let ghost hl = ht(n0.left);
        let ghost hr = ht(n0.right);
        proof {
            lemma_stored_height(n0.left);
            lemma_stored_height(n0.right);
        }
        let mut node = node;
        let left = node.left.take().unwrap();
        let ghost l0 = *left;
        proof {
            assert(avl(n0.left));
            assert(bst(n0.left));
            lemma_stored_height(l0.left);
            lemma_stored_height(l0.right);
            assert(hl == 1 + max_nat(ht(l0.left), ht(l0.right)));
        }
        let left = if BinarySearchTree::get_balance(&left) < 0 {
            let ghost lr0 = *l0.right.unwrap();
            proof {
                assert(avl(l0.right));
                lemma_stored_height(lr0.left);
                lemma_stored_height(lr0.right);
                assert(ht(l0.right) == 1 + max_nat(ht(lr0.left), ht(lr0.right)));
            }
            let rotated = Self::rotate_left(left);
            proof {
                let inner = rotated.left.unwrap();
                assert(avl(Some(inner)));
                assert(ht(Some(inner)) == hr + 1);
                assert(stored_ht(rotated.right) == ht(rotated.right));
            }
            rotated
        } else {
            left
        };
        let ghost l1 = *left;
        proof {
            assert(avl(l1.left));
            assert(avl(l1.right));
            lemma_stored_height(l1.left);
            lemma_stored_height(l1.right);
            assert(ht(l1.left) == hr + 1);
            assert(hr - 1 <= ht(l1.right) <= hr + 1);
            assert(bst(Some(left)));
        }
        node.left = Some(left);
        proof {
            assert(keys(Some(node)) =~= keys(Some(Box::new(n0))));
            assert(bst(Some(node)));
        }
        let r = Self::rotate_right(node);
        proof {
            let inner = r.right.unwrap();
            assert(avl(Some(inner)));
            lemma_stored_height(Some(inner));
            lemma_stored_height(r.left);
            assert(avl(Some(r)));
        }
        r
    }

    /// Restores a node whose right subtree is two levels taller than its left
    /// one: the mirror image of `rebalance_left_heavy`.
    fn rebalance_right_heavy(node: Box<Node>) -> (r: Box<Node>)
        requires
            bst(Some(node)),
            avl(node.left),
            avl(node.right),
            ht(node.right) == ht(node.left) + 2,
            ht(node.right) < i32::MAX,
            node.height == node_height(node.left, node.right),
        ensures
            keys(Some(r)) == keys(Some(node)),
            bst(Some(r)),
            avl(Some(r)),
            ht(node.right) <= ht(Some(r)) <= ht(node.right) + 1,
    {
        let ghost n0 = *node;
        let ghost hl = ht(n0.left);
        let ghost hr = ht(n0.right);
        proof {
            lemma_stored_height(n0.left);
            lemma_stored_height(n0.right);
        }
        let mut node = node;
        let right = node.right.take().unwrap();
        let ghost r0 = *right;
        proof {
            assert(avl(n0.right));
            assert(bst(n0.right));
            lemma_stored_height(r0.left);
            lemma_stored_height(r0.right);
            assert(hr == 1 + max_nat(ht(r0.left), ht(r0.right)));
        }
        let right = if BinarySearchTree::get_balance(&right) > 0 {
            let ghost rl0 = *r0.left.unwrap();
            proof {
                assert(avl(r0.left));
                lemma_stored_height(rl0.left);
                lemma_stored_height(rl0.right);
                assert(ht(r0.left) == 1 + max_nat(ht(rl0.left), ht(rl0.right)));
            }
            let rotated = Self::rotate_right(right);
            proof {
                let inner = rotated.right.unwrap();
                assert(avl(Some(inner)));
                assert(ht(Some(inner)) == hl + 1);
                assert(stored_ht(rotated.left) == ht(rotated.left));
            }
            rotated
        } else {
            right
        };
        let ghost r1 = *right;
        proof {
            assert(avl(r1.left));
            assert(avl(r1.right));
            lemma_stored_height(r1.left);
            lemma_stored_height(r1.right);
            assert(ht(r1.right) == hl + 1);
            assert(hl - 1 <= ht(r1.left) <= hl + 1);
            assert(bst(Some(right)));
        }
        node.right = Some(right);
        proof {
            assert(keys(Some(node)) =~= keys(Some(Box::new(n0))));
            assert(bst(Some(node)));
        }
        let r = Self::rotate_left(node);
        proof {
            let inner = r.left.unwrap();
            assert(avl(Some(inner)));
            lemma_stored_height(Some(inner));
            lemma_stored_height(r.right);
            assert(avl(Some(r)));
        }
        r
    }

    /// Recomputes the height of `node` and, when its subtrees' heights differ
    /// by two, restores the balance: a left-heavy node whose left child leans
    /// right first has that child rotated left, then is rotated right (and the
    /// mirror image for a right-heavy node). Returns the new subtree root.
    fn balance(node: Box<Node>) -> (r: Box<Node>)
        requires
            bst(Some(node)),
            avl(node.left),
            avl(node.right),
            -2 <= ht(node.left) - ht(node.right) <= 2,
            max_nat(ht(node.left), ht(node.right)) < i32::MAX,
        ensures
            keys(Some(r)) == keys(Some(node)),
            bst(Some(r)),
            avl(Some(r)),
            max_nat(ht(node.left), ht(node.right)) <= ht(Some(r)) <= max_nat(ht(node.left), ht(node.right)) + 1,
            -1 <= ht(node.left) - ht(node.right) <= 1 ==> ht(Some(r)) == max_nat(ht(node.left), ht(node.right)) + 1,
    {
        let ghost n0 = *node;
        let ghost hl = ht(n0.left);
        let ghost hr = ht(n0.right);
        proof {
            lemma_stored_height(n0.left);
            lemma_stored_height(n0.right);
        }
        let mut node = node;
        BinarySearchTree::update_height(&mut node);
        let diff = BinarySearchTree::get_balance(&node);
        if diff > 1 {
            Self::rebalance_left_heavy(node)
        } else if diff < -1 {
            Self::rebalance_right_heavy(node)
        } else {
            proof {
                assert(keys(Some(node)) =~= keys(Some(Box::new(n0))));
            }
            node
        }
    }

    /// Inserts an absent key below `t` as a leaf of height 1 and balances
    /// every ancestor on the way back up. The height grows by at most one.
    fn insert_node(t: Option<Box<Node>>, key: i32) -> (r: Box<Node>)
        requires
            bst(t),
            avl(t),
            !keys(t).contains(key),
            ht(t) < i32::MAX,
        ensures
            keys(Some(r)) == keys(t).insert(key),
            bst(Some(r)),
            avl(Some(r)),
            ht(t) <= ht(Some(r)) <= ht(t) + 1,
        decreases t,
    {
        match t {
            None => {
                let leaf = Node { key, left: None, right: None, height: 1, color: None };
                proof {
                    assert(keys(Some(Box::new(leaf))) =~= Set::<i32>::empty().insert(key));
                }
                Box::new(leaf)
            },
            Some(node) => {
                let ghost n0 = *node;
                let mut n = node;
                proof {
                    assert(avl(n0.left) && avl(n0.right));
                }
                if key < n.key {
                    let sub = n.left.take();
                    let new_sub = Self::insert_node(sub, key);
                    n.left = Some(new_sub);
                    proof {
                        assert forall|k: i32| keys(n.left).contains(k) implies k < n.key by {
                            if k != key {
                                assert(keys(n0.left).contains(k));
                            }
                        }
                        assert(keys(Some(n)) =~= keys(Some(Box::new(n0))).insert(key));
                    }
                    Self::balance(n)
                } else {
                    let sub = n.right.take();
                    let new_sub = Self::insert_node(sub, key);
                    n.right = Some(new_sub);
                    proof {
                        assert forall|k: i32| keys(n.right).contains(k) implies n.key < k by {
                            if k != key {
                                assert(keys(n0.right).contains(k));
                            }
                        }
                        assert(keys(Some(n)) =~= keys(Some(Box::new(n0))).insert(key));
                    }
                    Self::balance(n)
                }
            },
        }
    }

    /// Inserts `key`; a key already present leaves the tree as it is. The
    /// height must stay representable.
    pub fn insert(&mut self, key: i32)
        requires
            old(self).wf(),
            ht(old(self).tree.root) < i32::MAX,
        ensures
            final(self).wf(),
            final(self)@ == old(self)@.insert(key),
            old(self)@.contains(key) ==> *final(self) == *old(self),
            ht(old(self).tree.root) <= ht(final(self).tree.root) <= ht(old(self).tree.root) + 1,
    {
        if self.tree.search(key).is_some() {
            return;
        }
        let root = self.tree.root.take();
        let new_root = Self::insert_node(root, key);
        self.tree.root = Some(new_root);
    }

    /// The node holding the smallest key of a subtree: its leftmost node.
    fn min_value_node(node: &Node) -> (r: &Node)
        requires
            bst(Some(Box::new(*node))),
        ensures
            keys(Some(Box::new(*node))).contains(r.key),
            forall|k: i32| keys(Some(Box::new(*node))).contains(k) ==> r.key <= k,
        decreases node,
    {
        match &node.left {
            Some(left) => {
                let m = Self::min_value_node(left);
                proof {
                    assert forall|k: i32| keys(Some(Box::new(*node))).contains(k) implies m.key <= k by {
                        if keys(node.left).contains(k) {
                        } else if k == node.key {
                        } else {
                            assert(keys(node.right).contains(k));
                        }
                    }
                }
                m
            },
            None => {
                proof {
                    assert(keys(node.left) =~= Set::<i32>::empty());
                    assert forall|k: i32| keys(Some(Box::new(*node))).contains(k) implies node.key <= k by {
                        if k != node.key {
                            assert(keys(node.right).contains(k));
                        }
                    }
                }
                node
            },
        }
    }

    /// Deletes `key` from below `t`, balancing every ancestor on the way back
    /// up. A node with one child is replaced by it; a node with two children
    /// takes the key of its in-order successor, which is then deleted from the
    /// right subtree. The height shrinks by at most one.
    fn delete_recursive(t: Option<Box<Node>>, key: i32) -> (r: Option<Box<Node>>)
        requires
            bst(t),
            avl(t),
        ensures
            keys(r) == keys(t).remove(key),
            bst(r),
            avl(r),
            ht(r) <= ht(t) <= ht(r) + 1,
        decreases t,
    {
        match t {
            None => {
                assert(keys(t).remove(key) =~= keys(t));
                None
            },
            Some(node) => {
                let ghost n0 = *node;
                let mut n = node;
                proof {
                    assert(avl(n0.left) && avl(n0.right));
                    assert(bst(n0.left) && bst(n0.right));
                    lemma_stored_height(t);
                }
                if key < n.key {
                    let sub = n.left.take();
                    n.left = Self::delete_recursive(sub, key);
                    proof {
                        assert(!keys(n0.right).contains(key));
                        assert(keys(Some(n)) =~= keys(Some(Box::new(n0))).remove(key));
                    }
                } else if n.key < key {
                    let sub = n.right.take();
                    n.right = Self::delete_recursive(sub, key);
                    proof {
                        assert(!keys(n0.left).contains(key));
                        assert(keys(Some(n)) =~= keys(Some(Box::new(n0))).remove(key));
                    }
                } else {
                    proof {
                        assert(!keys(n0.left).contains(key));
                        assert(!keys(n0.right).contains(key));
                    }
                    if n.left.is_none() {
                        assert(keys(n0.right) =~= keys(t).remove(key));
                        return n.right.take();
                    } else if n.right.is_none() {
                        assert(keys(n0.left) =~= keys(t).remove(key));
                        return n.left.take();
                    }
                    let successor = match &n.right {
                        Some(right) => Self::min_value_node(right).key,
                        None => {
                            assert(false);
                            key
                        },
                    };
                    proof {
                        assert(n0.right == Some(Box::new(*n0.right.unwrap())));
                    }
                    n.key = successor;
                    let sub = n.right.take();
                    n.right = Self::delete_recursive(sub, successor);
                    proof {
                        assert forall|k: i32| keys(n.left).contains(k) implies k < successor by {
                            assert(k < key);
                            assert(keys(n0.right).contains(successor));
                        }
                        assert forall|k: i32| keys(n.right).contains(k) implies successor < k by {
                            assert(keys(n0.right).contains(k));
                        }
                        assert(keys(Some(n)) =~= keys(Some(Box::new(n0))).remove(key));
                    }
                }
                Some(Self::balance(n))
            },
        }
    }

    /// Deletes `key` and reports whether it was present; an absent key leaves
    /// the tree as it is.
    pub fn delete(&mut self, key: i32) -> (found: bool)
        requires
            old(self).wf(),
        ensures
            final(self).wf(),
            found == old(self)@.contains(key),
            final(self)@ == old(self)@.remove(key),
            !found ==> *final(self) == *old(self),
            ht(final(self).tree.root) <= ht(old(self).tree.root),
    {
        if self.tree.search(key).is_none() {
            assert(self@.remove(key) =~= self@);
            return false;
        }
        let root = self.tree.root.take();
        self.tree.root = Self::delete_recursive(root, key);
        true
    }
}

} // verus!

//! The binary-search-tree substrate shared by both balancing disciplines:
//! nodes, their mathematical model, ordering-only queries and rotations.

use vstd::prelude::*;

verus! {

/// Color tag carried by the nodes of a red-black tree.
#[derive(Clone, Copy, Debug, PartialEq, Eq, Structural)]
pub enum NodeColor {
    Red,
    Black,
}

/// A tree node. Each node owns its two subtrees; `height` is maintained by the
/// AVL discipline and `color` by the red-black one.
#[derive(Debug)]
pub struct Node {
    pub key: i32,
    pub left: Option<Box<Node>>,
    pub right: Option<Box<Node>>,
    pub height: i32,
    pub color: Option<NodeColor>,
}

/// An ordered tree, owning its root (absent when the tree is empty).
pub struct BinarySearchTree {
    pub root: Option<Box<Node>>,
}

/// The keys stored in a subtree.
pub open spec fn keys(t: Option<Box<Node>>) -> Set<i32>
    decreases t,
{
    match t {
        None => Set::empty(),
        Some(n) => keys(n.left).union(keys(n.right)).insert(n.key),
    }
}

/// Binary-search ordering: every key of a left subtree is below its node's
/// key, every key of a right subtree above it, at every node.
pub open spec fn bst(t: Option<Box<Node>>) -> bool
    decreases t,
{
    match t {
        None => true,
        Some(n) => {
            &&& forall|k: i32| keys(n.left).contains(k) ==> k < n.key
            &&& forall|k: i32| keys(n.right).contains(k) ==> n.key < k
            &&& bst(n.left)
            &&& bst(n.right)
        },
    }
}

/// Number of nodes on the longest path from the root down to a leaf.
pub open spec fn ht(t: Option<Box<Node>>) -> nat
    decreases t,
{
    match t {
        None => 0,
        Some(n) => 1 + max_nat(ht(n.left), ht(n.right)),
    }
}

pub open spec fn max_nat(a: nat, b: nat) -> nat {
    if a >= b {
        a
    } else {
        b
    }
}

/// Number of nodes in a subtree.
pub open spec fn size(t: Option<Box<Node>>) -> nat
    decreases t,
{
    match t {
        None => 0,
        Some(n) => 1 + size(n.left) + size(n.right),
    }
}

/// Number of nodes whose two children are both absent.
pub open spec fn leaves(t: Option<Box<Node>>) -> nat
    decreases t,
{
    match t {
        None => 0,
        Some(n) => if n.left is None && n.right is None {
            1
        } else {
            leaves(n.left) + leaves(n.right)
        },
    }
}

/// Keys in symmetric order: left subtree, node, right subtree.
pub open spec fn inorder(t: Option<Box<Node>>) -> Seq<i32>
    decreases t,
{
    match t {
        None => Seq::empty(),
        Some(n) => inorder(n.left) + seq![n.key] + inorder(n.right),
    }
}

/// Keys with each node before its subtrees.
pub open spec fn preorder(t: Option<Box<Node>>) -> Seq<i32>
    decreases t,
{
    match t {
        None => Seq::empty(),
        Some(n) => seq![n.key] + preorder(n.left) + preorder(n.right),
    }
}

/// Keys with each node after its subtrees.
pub open spec fn postorder(t: Option<Box<Node>>) -> Seq<i32>
    decreases t,
{
    match t {
        None => Seq::empty(),
        Some(n) => postorder(n.left) + postorder(n.right) + seq![n.key],
    }
}

/// A sequence whose elements strictly increase.
pub open spec fn strictly_increasing(s: Seq<i32>) -> bool {
    forall|i: int, j: int| 0 <= i < j < s.len() ==> s[i] < s[j]
}

impl View for BinarySearchTree {
    type V = Set<i32>;

    open spec fn view(&self) -> Set<i32> {
        keys(self.root)
    }
}

impl BinarySearchTree {
    /// An empty tree.
    pub fn new() -> (t: Self)
        ensures
            t.root is None,
            t@ == Set::<i32>::empty(),
    {
        BinarySearchTree { root: None }
    }

    pub fn is_empty(&self) -> (r: bool)
        ensures
            r == (self.root is None),
            r == (self@ == Set::<i32>::empty()),
    {
        match &self.root {
            None => true,
            Some(n) => {
                assert(keys(self.root).contains(n.key));
                false
            },
        }
    }
}


/// Height recorded in a subtree's root (0 for an absent subtree).
pub open spec fn stored_ht(t: Option<Box<Node>>) -> int {
    match t {
        None => 0,
        Some(n) => n.height as int,
    }
}

/// Every key listed by the in-order traversal is a key of the subtree.
pub proof fn lemma_inorder_keys(t: Option<Box<Node>>)
    ensures
        forall|i: int| 0 <= i < inorder(t).len() ==> keys(t).contains(#[trigger] inorder(t)[i]),
    decreases t,
{
    if let Some(n) = t {
        lemma_inorder_keys(n.left);
        lemma_inorder_keys(n.right);
        let l = inorder(n.left);
        let s = inorder(t);
        assert forall|i: int| 0 <= i < s.len() implies keys(t).contains(#[trigger] s[i]) by {
            if i < l.len() {
                assert(s[i] == l[i]);
            } else if i > l.len() {
                assert(s[i] == inorder(n.right)[i - l.len() - 1]);
            }
        }
    }
}

/// In a binary search tree the in-order traversal strictly increases.
pub proof fn lemma_inorder_sorted(t: Option<Box<Node>>)
    requires
        bst(t),
    ensures
        strictly_increasing(inorder(t)),
    decreases t,
{
    if let Some(n) = t {
        lemma_inorder_sorted(n.left);
        lemma_inorder_sorted(n.right);
        lemma_inorder_keys(n.left);
        lemma_inorder_keys(n.right);
        let l = inorder(n.left);
        let r = inorder(n.right);
        let s = inorder(t);
        assert(s == l + seq![n.key] + r);
        assert forall|i: int, j: int| 0 <= i < j < s.len() implies s[i] < s[j] by {
            if j < l.len() {
            } else if j == l.len() {
                assert(keys(n.left).contains(l[i]));
            } else if i < l.len() {
                assert(keys(n.left).contains(l[i]));
                assert(keys(n.right).contains(r[j - l.len() - 1]));
            } else if i == l.len() {
                assert(keys(n.right).contains(r[j - l.len() - 1]));
            } else {
                assert(r[i - l.len() - 1] < r[j - l.len() - 1]);
            }
        }
    }
}

impl BinarySearchTree {
    /// Appends the in-order keys of `node` to `result`.
    fn inorder_traversal(node: &Option<Box<Node>>, result: &mut Vec<i32>)
        ensures
            final(result)@ == old(result)@ + inorder(*node),
        decreases node,
    {
        if let Some(n) = node {
            Self::inorder_traversal(&n.left, result);
            result.push(n.key);
            Self::inorder_traversal(&n.right, result);
            proof {
                assert(final(result)@ =~= old(result)@ + inorder(*node));
            }
        } else {
            assert(final(result)@ =~= old(result)@ + inorder(*node));
        }
    }

    /// Keys in symmetric order; strictly increasing on a binary search tree.
    pub fn print_inorder(&self) -> (r: Vec<i32>)
        ensures
            r@ == inorder(self.root),
            bst(self.root) ==> strictly_increasing(r@),
    {
        let mut result = Vec::new();
        Self::inorder_traversal(&self.root, &mut result);
        proof {
            assert(result@ =~= inorder(self.root));
            if bst(self.root) {
                lemma_inorder_sorted(self.root);
            }
        }
        result
    }
}


/// The node that a left rotation of `n` puts at the top: the right child
/// rises, `n` becomes its left child and adopts its former left subtree.
pub open spec fn rotate_left_spec(n: Node) -> Node {
    let r = n.right.unwrap();
    Node {
        key: r.key,
        left: Some(Box::new(Node { key: n.key, left: n.left, right: r.left, height: n.height, color: n.color })),
        right: r.right,
        height: r.height,
        color: r.color,
    }
}

/// The mirror image of `rotate_left_spec`.
pub open spec fn rotate_right_spec(n: Node) -> Node {
    let l = n.left.unwrap();
    Node {
        key: l.key,
        left: l.left,
        right: Some(Box::new(Node { key: n.key, left: l.right, right: n.right, height: n.height, color: n.color })),
        height: l.height,
        color: l.color,
    }
}

/// A rotation keeps the keys, the ordering and the in-order sequence.
pub proof fn lemma_rotate_left_keeps_order(n: Node)
    requires
        n.right is Some,
    ensures
        keys(Some(Box::new(rotate_left_spec(n)))) == keys(Some(Box::new(n))),
        inorder(Some(Box::new(rotate_left_spec(n)))) == inorder(Some(Box::new(n))),
        bst(Some(Box::new(n))) ==> bst(Some(Box::new(rotate_left_spec(n)))),
{
    let r = n.right.unwrap();
    let m = rotate_left_spec(n);
    let inner = m.left.unwrap();
    assert(keys(m.left) == keys(n.left).union(keys(r.left)).insert(n.key));
    assert(keys(n.right) == keys(r.left).union(keys(r.right)).insert(r.key));
    assert(keys(Some(Box::new(m))) =~= keys(Some(Box::new(n))));
    assert(inorder(m.left) == inorder(n.left) + seq![n.key] + inorder(r.left));
    assert(inorder(n.right) == inorder(r.left) + seq![r.key] + inorder(r.right));
    assert(inorder(Some(Box::new(m))) =~= inorder(Some(Box::new(n))));
    if bst(Some(Box::new(n))) {
        assert(keys(n.right).contains(r.key));
        assert(bst(n.right));
        assert forall|k: i32| keys(r.left).contains(k) implies n.key < k by {
            assert(keys(n.right).contains(k));
        }
        assert(bst(m.left));
        assert forall|k: i32| keys(m.left).contains(k) implies k < m.key by {
            if keys(r.left).contains(k) {
            } else if keys(n.left).contains(k) {
            }
        }
    }
}

/// A rotation keeps the keys, the ordering and the in-order sequence.
pub proof fn lemma_rotate_right_keeps_order(n: Node)
    requires
        n.left is Some,
    ensures
        keys(Some(Box::new(rotate_right_spec(n)))) == keys(Some(Box::new(n))),
        inorder(Some(Box::new(rotate_right_spec(n)))) == inorder(Some(Box::new(n))),
        bst(Some(Box::new(n))) ==> bst(Some(Box::new(rotate_right_spec(n)))),
{
    let l = n.left.unwrap();
    let m = rotate_right_spec(n);
    assert(keys(m.right) == keys(l.right).union(keys(n.right)).insert(n.key));
    assert(keys(n.left) == keys(l.left).union(keys(l.right)).insert(l.key));
    assert(keys(Some(Box::new(m))) =~= keys(Some(Box::new(n))));
    assert(inorder(m.right) == inorder(l.right) + seq![n.key] + inorder(n.right));
    assert(inorder(n.left) == inorder(l.left) + seq![l.key] + inorder(l.right));
    assert(inorder(Some(Box::new(m))) =~= inorder(Some(Box::new(n))));
    if bst(Some(Box::new(n))) {
        assert(keys(n.left).contains(l.key));
        assert(bst(n.left));
        assert forall|k: i32| keys(l.right).contains(k) implies k < n.key by {
            assert(keys(n.left).contains(k));
        }
        assert(bst(m.right));
        assert forall|k: i32| keys(m.right).contains(k) implies m.key < k by {
            if keys(l.right).contains(k) {
            } else if keys(n.right).contains(k) {
            }
        }
    }
}

impl BinarySearchTree {
    fn preorder_traversal(node: &Option<Box<Node>>, result: &mut Vec<i32>)
        ensures
            final(result)@ == old(result)@ + preorder(*node),
        decreases node,
    {
        if let Some(n) = node {
            result.push(n.key);
            Self::preorder_traversal(&n.left, result);
            Self::preorder_traversal(&n.right, result);
            assert(final(result)@ =~= old(result)@ + preorder(*node));
        } else {
            assert(final(result)@ =~= old(result)@ + preorder(*node));
        }
    }

    fn postorder_traversal(node: &Option<Box<Node>>, result: &mut Vec<i32>)
        ensures
            final(result)@ == old(result)@ + postorder(*node),
        decreases node,
    {
        if let Some(n) = node {
            Self::postorder_traversal(&n.left, result);
            Self::postorder_traversal(&n.right, result);
            result.push(n.key);
            assert(final(result)@ =~= old(result)@ + postorder(*node));
        } else {
            assert(final(result)@ =~= old(result)@ + postorder(*node));
        }
    }

    /// Keys with each node listed before its subtrees.
    pub fn print_preorder(&self) -> (r: Vec<i32>)
        ensures
            r@ == preorder(self.root),
    {
        let mut result = Vec::new();
        Self::preorder_traversal(&self.root, &mut result);
        assert(result@ =~= preorder(self.root));
        result
    }

    /// Keys with each node listed after its subtrees.
    pub fn print_postorder(&self) -> (r: Vec<i32>)
        ensures
            r@ == postorder(self.root),
    {
        let mut result = Vec::new();
        Self::postorder_traversal(&self.root, &mut result);
        assert(result@ =~= postorder(self.root));
        result
    }

    fn height_helper(node: &Option<Box<Node>>) -> (r: i32)
        requires
            ht(*node) <= i32::MAX,
        ensures
            r == ht(*node),
        decreases node,
    {
        match node {
            None => 0,
            Some(n) => {
                let lh = Self::height_helper(&n.left);
                let rh = Self::height_helper(&n.right);
                if lh >= rh {
                    1 + lh
                } else {
                    1 + rh
                }
            },
        }
    }

    /// Number of nodes on the longest root-to-leaf path (0 when empty).
    pub fn get_height(&self) -> (r: i32)
        requires
            ht(self.root) <= i32::MAX,
        ensures
            r == ht(self.root),
    {
        Self::height_helper(&self.root)
    }

    fn count_leaves_recursive(node: &Option<Box<Node>>) -> (r: i32)
        requires
            leaves(*node) <= i32::MAX,
        ensures
            r == leaves(*node),
        decreases node,
    {
        match node {
            None => 0,
            Some(n) => {
                if n.left.is_none() && n.right.is_none() {
                    1
                } else {
                    Self::count_leaves_recursive(&n.left) + Self::count_leaves_recursive(&n.right)
                }
            },
        }
    }

    /// Number of nodes with no children (0 when empty).
    pub fn count_leaves(&self) -> (r: i32)
        requires
            leaves(self.root) <= i32::MAX,
        ensures
            r == leaves(self.root),
    {
        Self::count_leaves_recursive(&self.root)
    }

    /// Walks down from the root, branching on comparison, to the node that
    /// holds `key`.
    pub fn search(&self, key: i32) -> (r: Option<&Node>)
        requires
            bst(self.root),
        ensures
            r is Some <==> self@.contains(key),
            r matches Some(n) ==> n.key == key,
    {
        let mut current: &Option<Box<Node>> = &self.root;
        loop
            invariant
                bst(*current),
                self@.contains(key) <==> keys(*current).contains(key),
            decreases ht(*current),
        {
            match current {
                None => {
                    return None;
                },
                Some(n) => {
                    if n.key == key {
                        return Some(&**n);
                    } else if key < n.key {
                        assert(!keys(n.right).contains(key));
                        current = &n.left;
                    } else {
                        assert(!keys(n.left).contains(key));
                        current = &n.right;
                    }
                },
            }
        }
    }

    /// Recomputes a node's height from the heights recorded in its children.
    pub fn update_height(node: &mut Node)
        requires
            stored_ht(old(node).left) < i32::MAX,
            stored_ht(old(node).right) < i32::MAX,
        ensures
            final(node).height == 1 + if stored_ht(old(node).left) >= stored_ht(old(node).right) {
                stored_ht(old(node).left)
            } else {
                stored_ht(old(node).right)
            },
            final(node).key == old(node).key,
            final(node).left == old(node).left,
            final(node).right == old(node).right,
            final(node).color == old(node).color,
    {
        let lh = match &node.left {
            None => 0,
            Some(l) => l.height,
        };
        let rh = match &node.right {
            None => 0,
            Some(r) => r.height,
        };
        node.height = if lh >= rh {
            1 + lh
        } else {
            1 + rh
        };
    }

    /// Recorded height of the left child minus that of the right child.
    pub fn get_balance(node: &Node) -> (r: i32)
        requires
            stored_ht(node.left) >= 0,
            stored_ht(node.right) >= 0,
        ensures
            r == stored_ht(node.left) - stored_ht(node.right),
    {
        let lh = match &node.left {
            None => 0,
            Some(l) => l.height,
        };
        let rh = match &node.right {
            None => 0,
            Some(r) => r.height,
        };
        lh - rh
    }
}

/// Left rotation: the right child becomes the subtree root and the old root
/// takes over that child's left subtree. The right child must be present.
pub fn rotate_left(node: Box<Node>) -> (r: Box<Node>)
    requires
        node.right is Some,
    ensures
        *r == rotate_left_spec(*node),
{
    let mut n = node;
    let mut pivot = match n.right.take() {
        Some(p) => p,
        None => {
            assert(false);
            return n;
        }
    };
    n.right = pivot.left.take();
    pivot.left = Some(n);
    pivot
}

/// Right rotation, the mirror image of `rotate_left`. The left child must be
/// present.
pub fn rotate_right(node: Box<Node>) -> (r: Box<Node>)
    requires
        node.left is Some,
    ensures
        *r == rotate_right_spec(*node),
{
    let mut n = node;
    let mut pivot = match n.left.take() {
        Some(p) => p,
        None => {
            assert(false);
            return n;
        }
    };
    n.left = pivot.right.take();
    pivot.right = Some(n);
    pivot
}


/// Which link leads to a node in a structural dump.
#[derive(Clone, Copy, Debug, PartialEq, Eq, Structural)]
pub enum Side {
    Root,
    Left,
    Right,
}

/// One node of a structural dump: its depth (0 at the root), the link that
/// leads to it, its parent's key, and its key, height and color.
#[derive(Clone, Copy, Debug, PartialEq, Eq, Structural)]
pub struct NodeEntry {
    pub depth: usize,
    pub side: Side,
    pub parent: Option<i32>,
    pub key: i32,
    pub height: i32,
    pub color: Option<NodeColor>,
}

/// The nodes of a subtree in right-to-left order (right subtree, node, left
/// subtree), the order in which a sideways drawing lists them top to bottom.
pub open spec fn dump(t: Option<Box<Node>>, depth: int, side: Side, parent: Option<i32>) -> Seq<NodeEntry>
    decreases t,
{
    match t {
        None => Seq::empty(),
        Some(n) => dump(n.right, depth + 1, Side::Right, Some(n.key)) + seq![
            NodeEntry { depth: depth as usize, side, parent, key: n.key, height: n.height, color: n.color },
        ] + dump(n.left, depth + 1, Side::Left, Some(n.key)),
    }
}

impl BinarySearchTree {
    fn structure_helper(
        node: &Option<Box<Node>>,
        depth: usize,
        side: Side,
        parent: Option<i32>,
        out: &mut Vec<NodeEntry>,
    )
        requires
            depth + ht(*node) <= usize::MAX,
        ensures
            final(out)@ == old(out)@ + dump(*node, depth as int, side, parent),
        decreases node,
    {
        if let Some(n) = node {
            Self::structure_helper(&n.right, depth + 1, Side::Right, Some(n.key), out);
            out.push(NodeEntry { depth, side, parent, key: n.key, height: n.height, color: n.color });
            Self::structure_helper(&n.left, depth + 1, Side::Left, Some(n.key), out);
            assert(final(out)@ =~= old(out)@ + dump(*node, depth as int, side, parent));
        } else {
            assert(final(out)@ =~= old(out)@ + dump(*node, depth as int, side, parent));
        }
    }

    /// Every node with its depth, parent, key, height and color, right to
    /// left, for drawing the tree sideways.
    pub fn structure(&self) -> (r: Vec<NodeEntry>)
        requires
            ht(self.root) <= usize::MAX,
        ensures
            r@ == dump(self.root, 0, Side::Root, None),
    {
        let mut out = Vec::new();
        Self::structure_helper(&self.root, 0, Side::Root, None, &mut out);
        assert(out@ =~= dump(self.root, 0, Side::Root, None));
        out
    }
}

} // verus!

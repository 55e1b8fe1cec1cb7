use baltree::{BinarySearchTree, Node, NodeColor, NodeEntry, Side};

fn leaf(key: i32) -> Option<Box<Node>> {
    Some(Box::new(Node { key, left: None, right: None, height: 1, color: None }))
}

fn node(key: i32, left: Option<Box<Node>>, right: Option<Box<Node>>, height: i32) -> Option<Box<Node>> {
    Some(Box::new(Node { key, left, right, height, color: None }))
}

fn sample() -> BinarySearchTree {
    // 8 ( 4 (2, 6), 10 (-, 12) )
    BinarySearchTree { root: node(8, node(4, leaf(2), leaf(6), 2), node(10, None, leaf(12), 2), 3) }
}

fn childless_by_traversal(t: &Option<Box<Node>>) -> i32 {
    match t {
        None => 0,
        Some(n) => {
            let own = if n.left.is_none() && n.right.is_none() { 1 } else { 0 };
            own + childless_by_traversal(&n.left) + childless_by_traversal(&n.right)
        }
    }
}

#[test]
fn substrate_traversals() {
    let t = sample();
    assert_eq!(t.print_inorder(), vec![2, 4, 6, 8, 10, 12]);
    assert_eq!(t.print_preorder(), vec![8, 4, 2, 6, 10, 12]);
    assert_eq!(t.print_postorder(), vec![2, 6, 4, 12, 10, 8]);
}

#[test]
fn substrate_height_and_leaves() {
    let t = sample();
    assert_eq!(t.get_height(), 3);
    assert_eq!(t.count_leaves(), 3);
    assert_eq!(t.count_leaves(), childless_by_traversal(&t.root));
    assert!(!t.is_empty());
}

#[test]
fn substrate_empty() {
    let t = BinarySearchTree::new();
    assert!(t.is_empty());
    assert_eq!(t.get_height(), 0);
    assert_eq!(t.count_leaves(), 0);
    assert!(t.print_inorder().is_empty());
    assert!(t.search(1).is_none());
    assert!(t.structure().is_empty());
}

#[test]
fn substrate_search() {
    let t = sample();
    assert_eq!(t.search(6).map(|n| n.key), Some(6));
    assert_eq!(t.search(12).map(|n| n.key), Some(12));
    assert!(t.search(7).is_none());
    assert!(t.search(100).is_none());
}

#[test]
fn substrate_update_height_and_balance() {
    let mut n = Node { key: 5, left: node(3, leaf(1), None, 2), right: None, height: 7, color: None };
    BinarySearchTree::update_height(&mut n);
    assert_eq!(n.height, 3);
    assert_eq!(BinarySearchTree::get_balance(&n), 2);
    let m = Node { key: 5, left: None, right: leaf(9), height: 2, color: None };
    assert_eq!(BinarySearchTree::get_balance(&m), -1);
}

#[test]
fn substrate_rotations_keep_order() {
    let t = sample();
    let root = t.root.unwrap();
    let r = baltree::bs_tree::rotate_left(root);
    assert_eq!(r.key, 10);
    assert_eq!(r.left.as_ref().unwrap().key, 8);
    assert!(r.left.as_ref().unwrap().right.is_none());
    let t2 = BinarySearchTree { root: Some(r) };
    assert_eq!(t2.print_inorder(), vec![2, 4, 6, 8, 10, 12]);
    let r = baltree::bs_tree::rotate_right(t2.root.unwrap());
    assert_eq!(r.key, 8);
    let t3 = BinarySearchTree { root: Some(r) };
    assert_eq!(t3.print_preorder(), vec![8, 4, 2, 6, 10, 12]);
}

#[test]
fn substrate_structure_dump() {
    let mut root = node(2, leaf(1), leaf(3), 2);
    root.as_mut().unwrap().color = Some(NodeColor::Black);
    let t = BinarySearchTree { root };
    let d = t.structure();
    assert_eq!(
        d,
        vec![
            NodeEntry { depth: 1, side: Side::Right, parent: Some(2), key: 3, height: 1, color: None },
            NodeEntry { depth: 0, side: Side::Root, parent: None, key: 2, height: 2, color: Some(NodeColor::Black) },
            NodeEntry { depth: 1, side: Side::Left, parent: Some(2), key: 1, height: 1, color: None },
        ]
    );
}

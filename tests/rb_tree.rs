use baltree::{Node, NodeColor, RedBlackTree};

fn rb_is_red(t: &Option<Box<Node>>) -> bool {
    matches!(t, Some(n) if n.color == Some(NodeColor::Red))
}

/// Black height of a subtree if every path agrees and no red node has a red
/// child; `None` otherwise.
fn rb_black_height(t: &Option<Box<Node>>) -> Option<usize> {
    match t {
        None => Some(0),
        Some(n) => {
            n.color?;
            if rb_is_red(t) && (rb_is_red(&n.left) || rb_is_red(&n.right)) {
                return None;
            }
            let l = rb_black_height(&n.left)?;
            let r = rb_black_height(&n.right)?;
            if l != r {
                return None;
            }
            Some(l + if rb_is_red(t) { 0 } else { 1 })
        }
    }
}

fn rb_valid(t: &RedBlackTree) -> bool {
    !rb_is_red(&t.tree.root) && rb_black_height(&t.tree.root).is_some()
}

fn rb_build(keys: &[i32]) -> RedBlackTree {
    let mut t = RedBlackTree::new();
    for &k in keys {
        t.insert(k);
    }
    t
}

fn rb_count_nodes(t: &Option<Box<Node>>) -> usize {
    match t {
        None => 0,
        Some(n) => 1 + rb_count_nodes(&n.left) + rb_count_nodes(&n.right),
    }
}

#[test]
fn rb_scenario_delete_after_four_inserts() {
    let mut t = rb_build(&[8, 4, 16, 12]);
    assert!(rb_valid(&t));
    assert!(t.delete(4));
    assert_eq!(t.tree.root.as_ref().unwrap().color, Some(NodeColor::Black));
    assert_eq!(t.tree.print_inorder(), vec![8, 12, 16]);
    assert!(rb_valid(&t));
    assert_eq!(t.tree.print_preorder(), vec![12, 8, 16]);
}

#[test]
fn rb_scenario_ascending_then_deletes() {
    let keys: Vec<i32> = (1..=10).collect();
    let mut t = rb_build(&keys);
    assert!(rb_valid(&t));
    for k in [1, 2, 3] {
        assert!(t.delete(k));
        assert!(rb_valid(&t));
    }
    assert_eq!(t.tree.print_inorder(), vec![4, 5, 6, 7, 8, 9, 10]);
}

#[test]
fn rb_empty_tree() {
    let mut t = RedBlackTree::new();
    assert!(t.tree.is_empty());
    assert_eq!(t.tree.get_height(), 0);
    assert_eq!(t.tree.count_leaves(), 0);
    assert!(!t.delete(5));
    assert!(t.tree.is_empty());
}

#[test]
fn rb_first_insert_is_black_root() {
    let t = rb_build(&[42]);
    let root = t.tree.root.as_ref().unwrap();
    assert_eq!(root.key, 42);
    assert_eq!(root.color, Some(NodeColor::Black));
}

#[test]
fn rb_red_uncle_recolors() {
    let t = rb_build(&[8, 4, 16, 12]);
    let root = t.tree.root.as_ref().unwrap();
    assert_eq!(root.color, Some(NodeColor::Black));
    assert_eq!(root.left.as_ref().unwrap().color, Some(NodeColor::Black));
    let right = root.right.as_ref().unwrap();
    assert_eq!(right.color, Some(NodeColor::Black));
    assert_eq!(right.left.as_ref().unwrap().color, Some(NodeColor::Red));
}

#[test]
fn rb_zig_zag_insert_rotates_twice() {
    let t = rb_build(&[30, 10, 20]);
    assert_eq!(t.tree.print_preorder(), vec![20, 10, 30]);
    let root = t.tree.root.as_ref().unwrap();
    assert_eq!(root.color, Some(NodeColor::Black));
    assert_eq!(root.left.as_ref().unwrap().color, Some(NodeColor::Red));
    assert_eq!(root.right.as_ref().unwrap().color, Some(NodeColor::Red));
}

#[test]
fn rb_duplicate_insert_is_no_op() {
    let mut t = rb_build(&[5, 3, 9, 1]);
    let before = t.tree.print_preorder();
    t.insert(3);
    assert_eq!(t.tree.print_preorder(), before);
    assert_eq!(t.tree.print_inorder(), vec![1, 3, 5, 9]);
}

#[test]
fn rb_round_trip() {
    let mut t = rb_build(&[5, 3, 9, 1]);
    t.insert(7);
    assert_eq!(t.tree.search(7).map(|n| n.key), Some(7));
    assert!(t.delete(7));
    assert!(t.tree.search(7).is_none());
    assert!(!t.delete(7));
}

#[test]
fn rb_delete_red_leaf_needs_no_fixup() {
    let mut t = rb_build(&[20, 10, 30, 25]);
    assert!(t.delete(25));
    assert_eq!(t.tree.print_preorder(), vec![20, 10, 30]);
    assert!(rb_valid(&t));
}

#[test]
fn rb_delete_with_red_sibling() {
    let mut t = rb_build(&[10, 5, 20, 15, 25, 30]);
    assert!(rb_valid(&t));
    assert!(t.delete(5));
    assert!(rb_valid(&t));
    assert_eq!(t.tree.print_inorder(), vec![10, 15, 20, 25, 30]);
}

#[test]
fn rb_delete_root_with_two_children() {
    let mut t = rb_build(&[10, 5, 20, 15, 25]);
    assert!(t.delete(10));
    assert!(rb_valid(&t));
    assert_eq!(t.tree.root.as_ref().unwrap().key, 15);
    assert_eq!(t.tree.print_inorder(), vec![5, 15, 20, 25]);
}

#[test]
fn rb_pseudo_random_inserts_and_deletes() {
    let mut t = RedBlackTree::new();
    let mut model: std::collections::BTreeSet<i32> = std::collections::BTreeSet::new();
    let mut x: u32 = 987654321;
    for step in 0..3000 {
        x = x.wrapping_mul(1103515245).wrapping_add(12345);
        let k = ((x >> 16) % 300) as i32 - 150;
        if step % 3 == 2 {
            assert_eq!(t.delete(k), model.remove(&k));
        } else {
            t.insert(k);
            model.insert(k);
        }
        if step % 25 == 0 {
            assert!(rb_valid(&t));
        }
    }
    assert!(rb_valid(&t));
    assert_eq!(t.tree.print_inorder(), model.iter().copied().collect::<Vec<i32>>());
    let n = rb_count_nodes(&t.tree.root) as f64;
    assert!((t.tree.get_height() as f64) <= 2.0 * (n + 1.0).log2());
}

#[test]
fn rb_delete_everything() {
    let keys: Vec<i32> = (1..=64).collect();
    let mut t = rb_build(&keys);
    for k in keys.iter().rev() {
        assert!(t.delete(*k));
        assert!(rb_valid(&t));
    }
    assert!(t.tree.is_empty());
}

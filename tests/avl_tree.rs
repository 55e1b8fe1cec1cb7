use baltree::{AVLTree, Node};

fn avl_height(t: &Option<Box<Node>>) -> i32 {
    match t {
        None => 0,
        Some(n) => 1 + avl_height(&n.left).max(avl_height(&n.right)),
    }
}

fn avl_check(t: &Option<Box<Node>>) -> bool {
    match t {
        None => true,
        Some(n) => {
            let (l, r) = (avl_height(&n.left), avl_height(&n.right));
            n.height == 1 + l.max(r) && (l - r).abs() <= 1 && avl_check(&n.left) && avl_check(&n.right)
        }
    }
}

fn avl_count_nodes(t: &Option<Box<Node>>) -> usize {
    match t {
        None => 0,
        Some(n) => 1 + avl_count_nodes(&n.left) + avl_count_nodes(&n.right),
    }
}

fn avl_build(keys: &[i32]) -> AVLTree {
    let mut t = AVLTree::new();
    for &k in keys {
        t.insert(k);
    }
    t
}

fn is_strictly_increasing(v: &[i32]) -> bool {
    v.windows(2).all(|w| w[0] < w[1])
}

#[test]
fn avl_scenario_eight_inserts() {
    let t = avl_build(&[4, 5, 8, 11, 12, 18, 17, 19]);
    assert_eq!(t.tree.print_inorder(), vec![4, 5, 8, 11, 12, 17, 18, 19]);
    assert_eq!(t.tree.get_height(), 4);
    assert!(avl_check(&t.tree.root));
}

#[test]
fn avl_scenario_shape_after_eight_inserts() {
    let t = avl_build(&[4, 5, 8, 11, 12, 18, 17, 19]);
    assert_eq!(t.tree.print_preorder(), vec![11, 5, 4, 8, 17, 12, 18, 19]);
    assert_eq!(t.tree.print_postorder(), vec![4, 8, 5, 12, 19, 18, 17, 11]);
    assert_eq!(t.tree.count_leaves(), 4);
}

#[test]
fn avl_scenario_duplicate_insert() {
    let mut t = avl_build(&[10, 20, 30, 40, 50, 25, 29, 27]);
    let leaves = t.tree.count_leaves();
    let inorder = t.tree.print_inorder();
    let preorder = t.tree.print_preorder();
    t.insert(27);
    assert_eq!(t.tree.count_leaves(), leaves);
    assert_eq!(t.tree.print_inorder(), inorder);
    assert_eq!(t.tree.print_preorder(), preorder);
    assert_eq!(inorder, vec![10, 20, 25, 27, 29, 30, 40, 50]);
}

#[test]
fn avl_empty_tree() {
    let mut t = AVLTree::new();
    assert!(t.tree.is_empty());
    assert_eq!(t.tree.get_height(), 0);
    assert_eq!(t.tree.count_leaves(), 0);
    assert!(!t.delete(5));
    assert!(t.tree.is_empty());
    assert!(t.tree.search(5).is_none());
}

#[test]
fn avl_round_trip() {
    let mut t = avl_build(&[3, 1, 4, 15, 9, 2, 6]);
    assert!(t.tree.search(7).is_none());
    t.insert(7);
    assert_eq!(t.tree.search(7).map(|n| n.key), Some(7));
    assert!(t.delete(7));
    assert!(t.tree.search(7).is_none());
    assert!(!t.delete(7));
}

#[test]
fn avl_ascending_inserts_stay_balanced() {
    let keys: Vec<i32> = (1..=100).collect();
    let t = avl_build(&keys);
    assert!(avl_check(&t.tree.root));
    assert_eq!(t.tree.get_height(), 7);
    assert_eq!(t.tree.print_inorder(), keys);
}

#[test]
fn avl_pseudo_random_inserts_and_deletes() {
    let mut t = AVLTree::new();
    let mut model: std::collections::BTreeSet<i32> = std::collections::BTreeSet::new();
    let mut x: u32 = 12345;
    for step in 0..2000 {
        x = x.wrapping_mul(1103515245).wrapping_add(12345);
        let k = ((x >> 16) % 200) as i32 - 100;
        if step % 3 == 2 {
            assert_eq!(t.delete(k), model.remove(&k));
        } else {
            t.insert(k);
            model.insert(k);
        }
        if step % 50 == 0 {
            assert!(avl_check(&t.tree.root));
        }
    }
    assert!(avl_check(&t.tree.root));
    let inorder = t.tree.print_inorder();
    assert!(is_strictly_increasing(&inorder));
    assert_eq!(inorder, model.iter().copied().collect::<Vec<i32>>());
    let n = avl_count_nodes(&t.tree.root) as f64;
    assert!((t.tree.get_height() as f64) <= (1.44 * (n + 2.0).log2()).ceil());
}

#[test]
fn avl_delete_node_with_two_children() {
    let mut t = avl_build(&[50, 30, 70, 20, 40, 60, 80]);
    assert!(t.delete(50));
    assert_eq!(t.tree.print_preorder(), vec![60, 30, 20, 40, 70, 80]);
    assert!(avl_check(&t.tree.root));
}

#[test]
fn avl_delete_triggers_rotation() {
    let mut t = avl_build(&[20, 10, 30, 40]);
    assert!(t.delete(10));
    assert_eq!(t.tree.print_preorder(), vec![30, 20, 40]);
    assert_eq!(t.tree.get_height(), 2);
}

#[test]
fn avl_left_right_case() {
    let t = avl_build(&[30, 10, 20]);
    assert_eq!(t.tree.print_preorder(), vec![20, 10, 30]);
    let t = avl_build(&[10, 30, 20]);
    assert_eq!(t.tree.print_preorder(), vec![20, 10, 30]);
}

#[test]
fn avl_rotations_recompute_heights() {
    let t = avl_build(&[2, 1, 3]);
    let root = t.tree.root.unwrap();
    let r = AVLTree::rotate_left(root);
    assert_eq!(r.key, 3);
    assert_eq!(r.height, 3);
    let l = r.left.as_ref().unwrap();
    assert_eq!(l.key, 2);
    assert_eq!(l.height, 2);
    let back = AVLTree::rotate_right(r);
    assert_eq!(back.key, 2);
    assert_eq!(back.height, 2);
    assert_eq!(back.right.as_ref().unwrap().height, 1);
}

#[test]
fn avl_extreme_keys() {
    let t = avl_build(&[i32::MAX, i32::MIN, 0]);
    assert_eq!(t.tree.print_inorder(), vec![i32::MIN, 0, i32::MAX]);
}

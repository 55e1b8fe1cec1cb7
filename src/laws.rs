//! Properties that hold across calls and over every reachable tree, stated
//! over the models that the operations' contracts use and proved here.

use vstd::prelude::*;
use vstd::arithmetic::power::lemma_pow0;
use vstd::arithmetic::power2::{pow2, lemma_pow2_unfold, lemma_pow2_strictly_increases};
use crate::bs_tree::{
    bst, ht, inorder, keys, leaves, lemma_inorder_sorted, max_nat, size, strictly_increasing,
    BinarySearchTree, Node,
};
use crate::avl_tree::{avl, AVLTree};
use crate::rb_tree::{bh, black_balanced, is_red, no_red_red, RedBlackTree};

verus! {

/// Ordering: in every well-formed AVL tree, whatever inserts and deletes
/// built it, the in-order traversal strictly increases.
pub proof fn law_avl_inorder_increasing(t: AVLTree)
    requires
        t.wf(),
    ensures
        strictly_increasing(inorder(t.tree.root)),
{
    lemma_inorder_sorted(t.tree.root);
}

/// Ordering: in every well-formed red-black tree the in-order traversal
/// strictly increases.
pub proof fn law_rb_inorder_increasing(t: RedBlackTree)
    requires
        t.wf(),
    ensures
        strictly_increasing(inorder(t.tree.root)),
{
    lemma_inorder_sorted(t.tree.root);
}

/// Round trip: once `k` is inserted (`after_insert` holds the keys of
/// `before` and `k`), a search for `k` finds it; once it is deleted again
/// (`after_delete` holds those keys but `k`), a search for it finds nothing.
pub proof fn law_round_trip(
    before: BinarySearchTree,
    after_insert: BinarySearchTree,
    after_delete: BinarySearchTree,
    k: i32,
)
    requires
        after_insert@ == before@.insert(k),
        after_delete@ == after_insert@.remove(k),
    ensures
        after_insert@.contains(k),
        !after_delete@.contains(k),
{
}

/// Every key of a subtree appears in its in-order traversal.
proof fn lemma_keys_in_inorder(t: Option<Box<Node>>)
    ensures
        forall|k: i32| keys(t).contains(k) ==> #[trigger] inorder(t).contains(k),
    decreases t,
{
    if let Some(n) = t {
        lemma_keys_in_inorder(n.left);
        lemma_keys_in_inorder(n.right);
        let l = inorder(n.left);
        let r = inorder(n.right);
        let s = inorder(t);
        assert forall|k: i32| keys(t).contains(k) implies #[trigger] s.contains(k) by {
            if k == n.key {
                assert(s[l.len() as int] == k);
            } else if keys(n.left).contains(k) {
                assert(l.contains(k));
                let i = choose|i: int| 0 <= i < l.len() && l[i] == k;
                assert(s[i] == k);
            } else {
                assert(keys(n.right).contains(k));
                assert(r.contains(k));
                let i = choose|i: int| 0 <= i < r.len() && r[i] == k;
                assert(s[l.len() + 1 + i] == k);
            }
        }
    }
}

/// Two strictly increasing sequences with the same elements are equal.
proof fn lemma_increasing_unique(a: Seq<i32>, b: Seq<i32>)
    requires
        strictly_increasing(a),
        strictly_increasing(b),
        forall|x: i32| a.contains(x) <==> b.contains(x),
    ensures
        a == b,
    decreases a.len() + b.len(),
{
    if a.len() == 0 {
        if b.len() > 0 {
            assert(b.contains(b[0]));
        }
        assert(a =~= b);
    } else if b.len() == 0 {
        assert(a.contains(a[0]));
    } else {
        assert(a.contains(a[0]) && b.contains(b[0]));
        let i = choose|i: int| 0 <= i < b.len() && b[i] == a[0];
        let j = choose|j: int| 0 <= j < a.len() && a[j] == b[0];
        if i > 0 {
            assert(b[0] < b[i]);
            if j > 0 {
                assert(a[0] < a[j]);
            }
        }
        assert(a[0] == b[0]);
        let ta = a.subrange(1, a.len() as int);
        let tb = b.subrange(1, b.len() as int);
        assert forall|x: i32| ta.contains(x) implies tb.contains(x) by {
            let p = choose|p: int| 0 <= p < ta.len() && ta[p] == x;
            assert(a[p + 1] == x && a[0] < a[p + 1]);
            assert(a.contains(x));
            assert(b.contains(x));
            let q = choose|q: int| 0 <= q < b.len() && b[q] == x;
            assert(q != 0);
            assert(tb[q - 1] == x);
        }
        assert forall|x: i32| tb.contains(x) implies ta.contains(x) by {
            let p = choose|p: int| 0 <= p < tb.len() && tb[p] == x;
            assert(b[p + 1] == x && b[0] < b[p + 1]);
            assert(b.contains(x));
            assert(a.contains(x));
            let q = choose|q: int| 0 <= q < a.len() && a[q] == x;
            assert(q != 0);
            assert(ta[q - 1] == x);
        }
        lemma_increasing_unique(ta, tb);
        assert(a =~= seq![a[0]] + ta);
        assert(b =~= seq![b[0]] + tb);
    }
}

/// Two binary search trees holding the same keys list them in the same
/// in-order sequence, whatever their shapes.
pub proof fn law_inorder_determined_by_keys(a: Option<Box<Node>>, b: Option<Box<Node>>)
    requires
        bst(a),
        bst(b),
        keys(a) == keys(b),
    ensures
        inorder(a) == inorder(b),
{
    lemma_inorder_sorted(a);
    lemma_inorder_sorted(b);
    lemma_keys_in_inorder(a);
    lemma_keys_in_inorder(b);
    crate::bs_tree::lemma_inorder_keys(a);
    crate::bs_tree::lemma_inorder_keys(b);
    assert forall|x: i32| inorder(a).contains(x) <==> inorder(b).contains(x) by {
        if inorder(a).contains(x) {
            let i = choose|i: int| 0 <= i < inorder(a).len() && inorder(a)[i] == x;
            assert(keys(a).contains(inorder(a)[i]));
        }
        if inorder(b).contains(x) {
            let i = choose|i: int| 0 <= i < inorder(b).len() && inorder(b)[i] == x;
            assert(keys(b).contains(inorder(b)[i]));
        }
    }
    lemma_increasing_unique(inorder(a), inorder(b));
}

/// Idempotence: inserting a key a second time leaves the in-order traversal
/// as the first insert left it. `first` and `second` are the trees after each
/// insert, as the insert contracts of both balanced trees describe them (both
/// keep the ordering).
pub proof fn law_insert_idempotent(
    before: BinarySearchTree,
    first: BinarySearchTree,
    second: BinarySearchTree,
    k: i32,
)
    requires
        bst(first.root),
        bst(second.root),
        first@ == before@.insert(k),
        second@ == first@.insert(k),
    ensures
        inorder(second.root) == inorder(first.root),
{
    assert(first@.insert(k) =~= first@);
    law_inorder_determined_by_keys(second.root, first.root);
}

/// The AVL balance at every node: subtree heights differ by at most one.
pub open spec fn height_balanced(t: Option<Box<Node>>) -> bool
    decreases t,
{
    match t {
        None => true,
        Some(n) => {
            &&& -1 <= ht(n.left) - ht(n.right) <= 1
            &&& height_balanced(n.left)
            &&& height_balanced(n.right)
        },
    }
}

proof fn lemma_avl_height_balanced(t: Option<Box<Node>>)
    requires
        avl(t),
    ensures
        height_balanced(t),
    decreases t,
{
    if let Some(n) = t {
        lemma_avl_height_balanced(n.left);
        lemma_avl_height_balanced(n.right);
    }
}

proof fn lemma_pow2_monotone(a: nat, b: nat)
    requires
        a <= b,
    ensures
        pow2(a) <= pow2(b),
{
    if a < b {
        lemma_pow2_strictly_increases(a, b);
    }
}

/// An AVL subtree of height `h` holds at least `2^(h/2) - 1` nodes.
proof fn lemma_avl_size(t: Option<Box<Node>>)
    requires
        avl(t),
    ensures
        pow2(ht(t) / 2) <= size(t) + 1,
    decreases t,
{
    lemma_pow0(2);
    if let Some(n) = t {
        lemma_avl_size(n.left);
        lemma_avl_size(n.right);
        let h = ht(t);
        let e = h / 2;
        if e > 0 {
            let lo = (e - 1) as nat;
            assert(ht(n.left) >= h - 2 && ht(n.right) >= h - 2);
            assert(ht(n.left) / 2 >= lo);
            assert(ht(n.right) / 2 >= lo);
            lemma_pow2_monotone(lo, ht(n.left) / 2);
            lemma_pow2_monotone(lo, ht(n.right) / 2);
            lemma_pow2_unfold(e);
            assert(pow2(e) == 2 * pow2(lo));
        }
    }
}

/// Fibonacci numbers: `fib(0) = 0`, `fib(1) = 1`.
pub open spec fn fib(n: nat) -> nat
    decreases n,
{
    if n < 2 {
        n
    } else {
        fib((n - 1) as nat) + fib((n - 2) as nat)
    }
}

proof fn lemma_fib_monotone(a: nat, b: nat)
    requires
        a <= b,
    ensures
        fib(a) <= fib(b),
    decreases b,
{
    if a < b {
        lemma_fib_monotone(a, (b - 1) as nat);
        if b >= 2 {
            assert(fib(b) == fib((b - 1) as nat) + fib((b - 2) as nat));
        }
    }
}

/// An AVL subtree of height `h` holds at least `fib(h + 2) - 1` nodes, the
/// size of the sparsest AVL tree of that height.
proof fn lemma_avl_size_fib(t: Option<Box<Node>>)
    requires
        avl(t),
    ensures
        fib(ht(t) + 2) <= size(t) + 1,
    decreases t,
{
    assert(fib(2) == 1) by {
        assert(fib(1) == 1 && fib(0) == 0);
    }
    if let Some(n) = t {
        lemma_avl_size_fib(n.left);
        lemma_avl_size_fib(n.right);
        let h = ht(t);
        assert(fib(h + 2) == fib(h + 1) + fib(h as nat));
        if ht(n.left) >= ht(n.right) {
            lemma_fib_monotone(h as nat, ht(n.right) + 2);
        } else {
            lemma_fib_monotone(h as nat, ht(n.left) + 2);
        }
    }
}

/// AVL balance bound: in every well-formed AVL tree each node's subtree
/// heights differ by at most one, and the tree's height `h` and node count
/// `n` satisfy `fib(h + 2) <= n + 1` (the sharp bound, which gives
/// `h < 1.4405 log2(n + 2)`) and the coarser `2^(h/2) <= n + 1`.
pub proof fn law_avl_balance_bound(t: AVLTree)
    requires
        t.wf(),
    ensures
        height_balanced(t.tree.root),
        fib(ht(t.tree.root) + 2) <= size(t.tree.root) + 1,
        pow2(ht(t.tree.root) / 2) <= size(t.tree.root) + 1,
{
    lemma_avl_height_balanced(t.tree.root);
    lemma_avl_size_fib(t.tree.root);
    lemma_avl_size(t.tree.root);
}

/// A subtree of black height `b` holds at least `2^b - 1` nodes.
proof fn lemma_rb_size(t: Option<Box<Node>>)
    requires
        black_balanced(t),
    ensures
        pow2(bh(t)) <= size(t) + 1,
    decreases t,
{
    match t {
        None => {
            lemma_pow0(2);
        },
        Some(n) => {
            lemma_rb_size(n.left);
            lemma_rb_size(n.right);
            lemma_pow2_unfold(bh(n.left) + 1);
            lemma_pow2_monotone(bh(t), bh(n.left) + 1);
        },
    }
}

/// Without red-red edges a path holds at most one red node per black one.
proof fn lemma_rb_height(t: Option<Box<Node>>)
    requires
        black_balanced(t),
        no_red_red(t),
    ensures
        ht(t) <= 2 * bh(t) + if is_red(t) {
            1int
        } else {
            0int
        },
    decreases t,
{
    if let Some(n) = t {
        lemma_rb_height(n.left);
        lemma_rb_height(n.right);
    }
}

/// Red-black invariants and height bound: every well-formed red-black tree
/// has a black (or absent) root, no red node with a red child, equal black
/// counts on all paths from a node down to an absent child, and a height `h`
/// with `h <= 2b` and `2^b <= n + 1` for its black height `b` and node count
/// `n`, so `h <= 2 log2(n + 1)`.
pub proof fn law_rb_invariants(t: RedBlackTree)
    requires
        t.wf(),
    ensures
        !is_red(t.tree.root),
        no_red_red(t.tree.root),
        black_balanced(t.tree.root),
        ht(t.tree.root) <= 2 * bh(t.tree.root),
        pow2(bh(t.tree.root)) <= size(t.tree.root) + 1,
{
    lemma_rb_size(t.tree.root);
    lemma_rb_height(t.tree.root);
}

/// The nodes of a subtree, each before its subtrees.
pub open spec fn nodes(t: Option<Box<Node>>) -> Seq<Node>
    decreases t,
{
    match t {
        None => Seq::empty(),
        Some(n) => seq![*n] + nodes(n.left) + nodes(n.right),
    }
}

pub open spec fn childless(n: Node) -> bool {
    n.left is None && n.right is None
}

/// Leaf count consistency: the leaf count that `count_leaves` returns is the
/// number of nodes, over a full traversal, whose two children are absent.
pub proof fn law_leaf_count(t: Option<Box<Node>>)
    ensures
        leaves(t) == nodes(t).filter(|n: Node| childless(n)).len(),
    decreases t,
{
    let p = |n: Node| childless(n);
    if let Some(n) = t {
        law_leaf_count(n.left);
        law_leaf_count(n.right);
        let head = seq![*n];
        Seq::filter_distributes_over_add(head + nodes(n.left), nodes(n.right), p);
        Seq::filter_distributes_over_add(head, nodes(n.left), p);
        reveal_with_fuel(Seq::filter, 2);
        assert(head.drop_last() =~= Seq::<Node>::empty());
        if childless(*n) {
            assert(head.filter(p) =~= head);
        } else {
            assert(head.filter(p) =~= Seq::<Node>::empty());
        }
    } else {
        reveal(Seq::filter);
    }
}

} // verus!

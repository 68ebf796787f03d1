//! AVL trees: search trees that rebalance by rotations whenever the heights of
//! the two subtrees of a node come to differ by more than one.

use vstd::prelude::*;
use crate::tree::{
    rotl, rotr, TreeKey, KeyOrder, TreeNode, link_map, link_ordered, link_size, all_below, all_above,
    lemma_node_lookup, link_get, rotate_left, rotate_right, lemma_insert_below, lemma_remove_below,
    lemma_remove_root,
};

verus! {

/// A node of an AVL tree; its balancing data is its height.
pub type AVLNode<K, V> = TreeNode<K, V, i32>;

/// A subtree of an AVL tree.
pub type AVLLink<K, V> = Option<Box<TreeNode<K, V, i32>>>;

/// The height recorded at the root of a subtree, -1 for the empty one (a
/// single node has height 0).
pub open spec fn height_of<K, V>(link: AVLLink<K, V>) -> i32 {
    match link {
        None => -1i32,
        Some(n) => n.aux,
    }
}

/// One more than the larger of two heights, staying at `i32::MAX`.
pub open spec fn next_height(hl: i32, hr: i32) -> i32 {
    let h = if hl > hr { hl } else { hr };
    if h < i32::MAX { (h + 1) as i32 } else { h }
}

/// `n` recording one more than the larger height of its subtrees.
pub open spec fn refreshed<K, V>(n: TreeNode<K, V, i32>) -> TreeNode<K, V, i32> {
    TreeNode { key: n.key, val: n.val, aux: next_height(height_of(n.left), height_of(n.right)), left: n.left, right: n.right }
}

/// The subtree with its root's height refreshed.
pub open spec fn refreshed_link<K, V>(l: AVLLink<K, V>) -> AVLLink<K, V> {
    match l {
        Some(b) => Some(Box::new(refreshed(*b))),
        None => None,
    }
}

/// `n` with the height of its left child refreshed, then its own.
pub open spec fn refreshed_left<K, V>(n: TreeNode<K, V, i32>) -> TreeNode<K, V, i32> {
    refreshed(TreeNode { key: n.key, val: n.val, aux: n.aux, left: refreshed_link(n.left), right: n.right })
}

/// `n` with the height of its right child refreshed, then its own.
pub open spec fn refreshed_right<K, V>(n: TreeNode<K, V, i32>) -> TreeNode<K, V, i32> {
    refreshed(TreeNode { key: n.key, val: n.val, aux: n.aux, left: n.left, right: refreshed_link(n.right) })
}

/// `p` with its height refreshed and, where the heights of its subtrees differ
/// by more than one, rotated toward the lower side: once where the higher
/// child leans outward or evenly, twice where it leans inward.
pub open spec fn rebalanced<K, V>(p: TreeNode<K, V, i32>) -> TreeNode<K, V, i32> {
    let q = refreshed(p);
    let hl = height_of(q.left) as int;
    let hr = height_of(q.right) as int;
    if hr - hl > 1 || hr - hl < -1 {
        if hr > hl {
            match q.right {
                None => q,
                Some(z) => if height_of(z.right) >= height_of(z.left) || z.left is None {
                    refreshed_left(rotl(q))
                } else {
                    refreshed_left(rotl(TreeNode { key: q.key, val: q.val, aux: q.aux, left: q.left,
                        right: Some(Box::new(refreshed_right(rotr(*z)))) }))
                },
            }
        } else {
            match q.left {
                None => q,
                Some(z) => if height_of(z.left) >= height_of(z.right) || z.right is None {
                    refreshed_right(rotr(q))
                } else {
                    refreshed_right(rotr(TreeNode { key: q.key, val: q.val, aux: q.aux,
                        left: Some(Box::new(refreshed_left(rotl(*z)))), right: q.right }))
                },
            }
        }
    } else {
        q
    }
}

/// The larger of two integers.
pub open spec fn max_int(a: int, b: int) -> int {
    if a > b { a } else { b }
}

/// The height of a subtree: -1 for the empty one, else one more than the
/// height of its higher subtree.
pub open spec fn avl_height<K, V>(l: AVLLink<K, V>) -> int
    decreases l,
{
    match l {
        None => -1,
        Some(n) => 1 + max_int(avl_height(n.left), avl_height(n.right)),
    }
}

/// The AVL rule: at every node the recorded height is the true height, and the
/// heights of the two subtrees differ by at most one.
pub open spec fn avl_balanced<K, V>(l: AVLLink<K, V>) -> bool
    decreases l,
{
    match l {
        None => true,
        Some(n) => {
            &&& avl_balanced(n.left)
            &&& avl_balanced(n.right)
            &&& n.aux as int == 1 + max_int(avl_height(n.left), avl_height(n.right))
            &&& -1 <= avl_height(n.right) - avl_height(n.left) <= 1
        },
    }
}

/// In a tree that keeps the AVL rule, the recorded height is the height.
pub proof fn lemma_height_of<K, V>(l: AVLLink<K, V>)
    requires
        avl_balanced(l),
    ensures
        height_of(l) as int == avl_height(l),
{
}

/// The node `n` with its height recorded afresh keeps the AVL rule when its
/// subtrees keep it and their heights differ by at most one.
proof fn lemma_refreshed_balanced<K, V>(n: TreeNode<K, V, i32>)
    requires
        avl_balanced(n.left),
        avl_balanced(n.right),
        avl_height(n.left) < 1000,
        avl_height(n.right) < 1000,
        -1 <= avl_height(n.right) - avl_height(n.left) <= 1,
    ensures
        avl_balanced(Some(Box::new(refreshed(n)))),
        avl_height(Some(Box::new(refreshed(n)))) == 1 + max_int(avl_height(n.left), avl_height(n.right)),
        avl_height(Some(Box::new(refreshed(n)))) < 1001,
{
    lemma_height_of(n.left);
    lemma_height_of(n.right);
}

/// Rebalancing a node whose subtrees keep the AVL rule and differ in height by
/// at most two gives a tree that keeps it, at most one lower than one more than
/// the higher subtree, and exactly that where no rotation was due.
pub proof fn lemma_rebalanced<K: TreeKey, V>(p: TreeNode<K, V, i32>)
    requires
        avl_balanced(p.left),
        avl_balanced(p.right),
        avl_height(p.left) < 1000,
        avl_height(p.right) < 1000,
        -2 <= avl_height(p.right) - avl_height(p.left) <= 2,
    ensures
        avl_balanced(Some(Box::new(rebalanced(p)))),
        1 + max_int(avl_height(p.left), avl_height(p.right)) - 1 <= avl_height(Some(Box::new(rebalanced(p))))
            <= 1 + max_int(avl_height(p.left), avl_height(p.right)),
        -1 <= avl_height(p.right) - avl_height(p.left) <= 1
            ==> avl_height(Some(Box::new(rebalanced(p)))) == 1 + max_int(avl_height(p.left), avl_height(p.right)),
{
    let hl = avl_height(p.left);
    let hr = avl_height(p.right);
    lemma_height_of(p.left);
    lemma_height_of(p.right);
    lemma_avl_size(p.left);
    lemma_avl_size(p.right);
    let q = refreshed(p);
    if hr - hl > 1 {
        let z = *q.right->0;
        assert(p.right == Some(Box::new(z)));
        assert(avl_balanced(z.left) && avl_balanced(z.right));
        let zl = avl_height(z.left);
        let zr = avl_height(z.right);
        lemma_height_of(z.left);
        lemma_height_of(z.right);
        assert(hr == 1 + max_int(zl, zr));
        if height_of(z.right) >= height_of(z.left) || z.left is None {
            let a = TreeNode { key: q.key, val: q.val, aux: q.aux, left: q.left, right: z.left };
            lemma_refreshed_balanced(a);
            let b = TreeNode { key: z.key, val: z.val, aux: z.aux, left: Some(Box::new(refreshed(a))), right: z.right };
            lemma_refreshed_balanced(b);
            assert(rebalanced(p) == refreshed(b));
        } else {
            let y = *z.left->0;
            assert(avl_balanced(y.left) && avl_balanced(y.right));
            lemma_height_of(y.left);
            lemma_height_of(y.right);
            assert(zl == 1 + max_int(avl_height(y.left), avl_height(y.right)));
            let a = TreeNode { key: q.key, val: q.val, aux: q.aux, left: q.left, right: y.left };
            let c = TreeNode { key: z.key, val: z.val, aux: z.aux, left: y.right, right: z.right };
            lemma_refreshed_balanced(a);
            lemma_refreshed_balanced(c);
            let z2 = refreshed_right(rotr(z));
            assert(z2.left == y.left);
            assert(z2.right == Some(Box::new(refreshed(c))));
            let b = TreeNode { key: y.key, val: y.val, aux: z2.aux, left: Some(Box::new(refreshed(a))), right: Some(Box::new(refreshed(c))) };
            lemma_refreshed_balanced(b);
            assert(rebalanced(p) == refreshed(b));
        }
    } else if hl - hr > 1 {
        let z = *q.left->0;
        assert(p.left == Some(Box::new(z)));
        assert(avl_balanced(z.left) && avl_balanced(z.right));
        let zl = avl_height(z.left);
        let zr = avl_height(z.right);
        lemma_height_of(z.left);
        lemma_height_of(z.right);
        assert(hl == 1 + max_int(zl, zr));
        if height_of(z.left) >= height_of(z.right) || z.right is None {
            let a = TreeNode { key: q.key, val: q.val, aux: q.aux, left: z.right, right: q.right };
            lemma_refreshed_balanced(a);
            let b = TreeNode { key: z.key, val: z.val, aux: z.aux, left: z.left, right: Some(Box::new(refreshed(a))) };
            lemma_refreshed_balanced(b);
            assert(rebalanced(p) == refreshed(b));
        } else {
            let y = *z.right->0;
            assert(avl_balanced(y.left) && avl_balanced(y.right));
            lemma_height_of(y.left);
            lemma_height_of(y.right);
            assert(zr == 1 + max_int(avl_height(y.left), avl_height(y.right)));
            let a = TreeNode { key: q.key, val: q.val, aux: q.aux, left: y.right, right: q.right };
            let c = TreeNode { key: z.key, val: z.val, aux: z.aux, left: z.left, right: y.left };
            lemma_refreshed_balanced(a);
            lemma_refreshed_balanced(c);
            let z2 = refreshed_left(rotl(z));
            assert(z2.right == y.right);
            assert(z2.left == Some(Box::new(refreshed(c))));
            let b = TreeNode { key: y.key, val: y.val, aux: z2.aux, left: Some(Box::new(refreshed(c))), right: Some(Box::new(refreshed(a))) };
            lemma_refreshed_balanced(b);
            assert(rebalanced(p) == refreshed(b));
        }
    } else {
        lemma_refreshed_balanced(p);
    }
}

/// The fewest nodes that a tree of height `h` keeping the AVL rule can have.
pub open spec fn min_avl_size(h: nat) -> nat
    decreases h,
{
    if h == 0 { 1 } else if h == 1 { 2 } else { min_avl_size((h - 1) as nat) + min_avl_size((h - 2) as nat) + 1 }
}

/// A lower tree needs no more nodes.
proof fn lemma_min_avl_size_mono(a: nat, b: nat)
    requires
        a <= b,
    ensures
        min_avl_size(a) <= min_avl_size(b),
    decreases b,
{
    if a < b {
        lemma_min_avl_size_mono(a, (b - 1) as nat);
    }
}

/// A tree that keeps the AVL rule has at least `min_avl_size` of its height nodes.
proof fn lemma_avl_size<K, V>(l: AVLLink<K, V>)
    requires
        avl_balanced(l),
    ensures
        avl_height(l) >= -1,
        avl_height(l) >= 0 ==> link_size(l) >= min_avl_size(avl_height(l) as nat),
    decreases l,
{
    match l {
        None => {},
        Some(n) => {
            lemma_avl_size(n.left);
            lemma_avl_size(n.right);
            let h = avl_height(l);
            let hl = avl_height(n.left);
            let hr = avl_height(n.right);
            if h >= 2 {
                if hl >= hr {
                    lemma_min_avl_size_mono((h - 2) as nat, hr as nat);
                } else {
                    lemma_min_avl_size_mono((h - 2) as nat, hl as nat);
                }
            }
        },
    }
}

/// Two to the power `k`.
pub open spec fn two_pow(k: nat) -> nat
    decreases k,
{
    if k == 0 { 1 } else { 2 * two_pow((k - 1) as nat) }
}

/// Two to the power 64.
pub proof fn lemma_two_pow_64()
    ensures
        two_pow(64) == 0x10000000000000000nat,
{
    reveal_with_fuel(two_pow, 65);
}

/// A tree of height `2k` or more that keeps the AVL rule has at least `2^k` nodes.
proof fn lemma_min_avl_size_exp(h: nat, k: nat)
    requires
        h >= 2 * k,
    ensures
        min_avl_size(h) >= two_pow(k),
    decreases k,
{
    if k > 0 {
        lemma_min_avl_size_exp((h - 2) as nat, (k - 1) as nat);
        lemma_min_avl_size_mono((h - 2) as nat, (h - 1) as nat);
    }
}

/// A tree that keeps the AVL rule and has at most `usize::MAX` nodes is lower than 128.
pub proof fn lemma_avl_height_bound<K, V>(l: AVLLink<K, V>)
    requires
        avl_balanced(l),
        link_size(l) <= usize::MAX,
    ensures
        avl_height(l) < 128,
{
    lemma_avl_size(l);
    if avl_height(l) >= 128 {
        lemma_min_avl_size_exp(avl_height(l) as nat, 64);
        lemma_two_pow_64();
    }
}

/// The map of a search tree has as many keys as the tree has nodes.
pub proof fn lemma_size_len<K: TreeKey, V, A>(l: Option<Box<TreeNode<K, V, A>>>)
    requires
        link_ordered(l),
    ensures
        link_map(l).dom().finite(),
        link_map(l).dom().len() == link_size(l),
    decreases l,
{
    match l {
        None => {},
        Some(n) => {
            lemma_size_len(n.left);
            lemma_size_len(n.right);
            let dl = link_map(n.left).dom();
            let dr = link_map(n.right).dom();
            assert(dl.disjoint(dr)) by {
                assert forall|q: K| dl.contains(q) implies !dr.contains(q) by {
                }
            }
            vstd::set_lib::lemma_set_disjoint_lens(dl, dr);
            assert(link_map(l).dom() =~= (dl + dr).insert(n.key));
            assert(!(dl + dr).contains(n.key));
        },
    }
}

/// The height recorded at the root of a subtree, -1 for the empty one.
pub fn height<K, V>(link: &AVLLink<K, V>) -> (r: i32)
    ensures
        r == height_of(*link),
{
    match link {
        None => -1,
        Some(n) => n.aux,
    }
}

/// Records at `n` one more than the larger height of its subtrees.
pub fn update_height<K: TreeKey, V>(n: Box<TreeNode<K, V, i32>>) -> (r: Box<TreeNode<K, V, i32>>)
    ensures
        r.key == n.key,
        r.val == n.val,
        r.left == n.left,
        r.right == n.right,
        r.node_map() == n.node_map(),
        r.node_ordered() == n.node_ordered(),
        r.node_size() == n.node_size(),
        *r == refreshed(*n),
{
    let hl = height(&n.left);
    let hr = height(&n.right);
    let h = if hl > hr { hl } else { hr };
    let nh = if h < i32::MAX { h + 1 } else { h };
    let TreeNode { key, val, aux: _, left, right } = *n;
    Box::new(TreeNode { key, val, aux: nh, left, right })
}

/// Updates the height of the root's left child, then that of the root.
fn update_heights_left<K: TreeKey, V>(n: Box<TreeNode<K, V, i32>>) -> (r: Box<TreeNode<K, V, i32>>)
    requires
        n.node_ordered(),
    ensures
        *r == refreshed_left(*n),
        r.node_ordered(),
        r.node_map() == n.node_map(),
        r.node_size() == n.node_size(),
{
    let TreeNode { key, val, aux, left, right } = *n;
    let left2 = match left {
        Some(l) => Some(update_height(l)),
        None => None,
    };
    proof {
        assert(link_map(left2) == link_map(left));
        assert(link_ordered(left2) == link_ordered(left));
        assert(link_size(left2) == link_size(left));
    }
    let m = Box::new(TreeNode { key, val, aux, left: left2, right });
    update_height(m)
}

/// Updates the height of the root's right child, then that of the root.
fn update_heights_right<K: TreeKey, V>(n: Box<TreeNode<K, V, i32>>) -> (r: Box<TreeNode<K, V, i32>>)
    requires
        n.node_ordered(),
    ensures
        *r == refreshed_right(*n),
        r.node_ordered(),
        r.node_map() == n.node_map(),
        r.node_size() == n.node_size(),
{
    let TreeNode { key, val, aux, left, right } = *n;
    let right2 = match right {
        Some(l) => Some(update_height(l)),
        None => None,
    };
    proof {
        assert(link_map(right2) == link_map(right));
        assert(link_ordered(right2) == link_ordered(right));
        assert(link_size(right2) == link_size(right));
    }
    let m = Box::new(TreeNode { key, val, aux, left, right: right2 });
    update_height(m)
}

/// A left rotation that keeps the recorded heights.
fn avl_rotate_left<K: TreeKey, V>(x: Box<TreeNode<K, V, i32>>) -> (r: Box<TreeNode<K, V, i32>>)
    requires
        x.node_ordered(),
        x.right is Some,
    ensures
        *r == refreshed_left(rotl(*x)),
        r.node_ordered(),
        r.node_map() == x.node_map(),
        r.node_size() == x.node_size(),
{
    update_heights_left(rotate_left(x))
}

/// A right rotation that keeps the recorded heights.
fn avl_rotate_right<K: TreeKey, V>(x: Box<TreeNode<K, V, i32>>) -> (r: Box<TreeNode<K, V, i32>>)
    requires
        x.node_ordered(),
        x.left is Some,
    ensures
        *r == refreshed_right(rotr(*x)),
        r.node_ordered(),
        r.node_map() == x.node_map(),
        r.node_size() == x.node_size(),
{
    update_heights_right(rotate_right(x))
}

/// Updates the height of `p` and, where its subtrees differ in height by more
/// than one, rotates it once or twice toward the lower side.
fn rebalance<K: TreeKey, V>(p: Box<TreeNode<K, V, i32>>) -> (r: Box<TreeNode<K, V, i32>>)
    requires
        p.node_ordered(),
    ensures
        *r == rebalanced(*p),
        r.node_ordered(),
        r.node_map() == p.node_map(),
        r.node_size() == p.node_size(),
{
    let p = update_height(p);
    let hl = height(&p.left) as i64;
    let hr = height(&p.right) as i64;
    let bf = hr - hl;
    if bf > 1 || bf < -1 {
        if hr > hl {
            // the right side is high; rotate toward the left
            let TreeNode { key, val, aux, left, right } = *p;
            let z = match right {
                Some(z) => z,
                None => {
                    return Box::new(TreeNode { key, val, aux, left, right: None });
                },
            };
            if height(&z.right) >= height(&z.left) || z.left.is_none() {
                let p2 = Box::new(TreeNode { key, val, aux, left, right: Some(z) });
                avl_rotate_left(p2)
            } else {
                let ghost zg = *z;
                let z2 = avl_rotate_right(z);
                let p2 = Box::new(TreeNode { key, val, aux, left, right: Some(z2) });
                proof {
                    assert(link_map(Some(z2)) == link_map(Some(Box::new(zg))));
                }
                avl_rotate_left(p2)
            }
        } else {
            // the left side is high; rotate toward the right
            let TreeNode { key, val, aux, left, right } = *p;
            let z = match left {
                Some(z) => z,
                None => {
                    return Box::new(TreeNode { key, val, aux, left: None, right });
                },
            };
            if height(&z.left) >= height(&z.right) || z.right.is_none() {
                let p2 = Box::new(TreeNode { key, val, aux, left: Some(z), right });
                avl_rotate_right(p2)
            } else {
                let ghost zg = *z;
                let z2 = avl_rotate_left(z);
                let p2 = Box::new(TreeNode { key, val, aux, left: Some(z2), right });
                proof {
                    assert(link_map(Some(z2)) == link_map(Some(Box::new(zg))));
                }
                avl_rotate_right(p2)
            }
        }
    } else {
        p
    }
}

/// Inserts `k -> v` below `link`, rebalancing on the way up; gives back the value
/// that `k` had.
fn insert_link<K: TreeKey, V>(link: AVLLink<K, V>, k: K, v: V) -> (r: (Box<TreeNode<K, V, i32>>, Option<V>))
    requires
        link_ordered(link),
        avl_balanced(link),
        avl_height(link) < 200,
    ensures
        r.0.node_ordered(),
        r.0.node_map() == link_map(link).insert(k, v),
        avl_balanced(Some(r.0)),
        avl_height(link) <= avl_height(Some(r.0)) <= avl_height(link) + 1,
        r.1 == (if link_map(link).dom().contains(k) { Some(link_map(link)[k]) } else { None }),
    decreases link,
{
    match link {
        None => (Box::new(TreeNode::leaf(k, v, 0)), None),
        Some(node) => {
            let ghost old_node = *node;
            proof {
                lemma_node_lookup(old_node, k);
            }
            let TreeNode { key, val, aux, left, right } = *node;
            match k.compare(&key) {
                KeyOrder::Equal => {
                    proof {
                        K::lemma_rank_injective(k, key);
                    }
                    let n = Box::new(TreeNode { key, val: v, aux, left, right });
                    proof {
                        assert(n.node_map() =~= old_node.node_map().insert(k, v));
                    }
                    (n, Some(val))
                },
                KeyOrder::Less => {
                    let (nl, popped) = insert_link(left, k, v);
                    let n = Box::new(TreeNode { key, val, aux, left: Some(nl), right });
                    proof {
                        assert(link_map(n.left) == nl.node_map());
                        assert(all_below(n.left, key.rank()));
                        lemma_insert_below(link_map(left), link_map(right), key, val, k, v, true);
                        lemma_rebalanced(*n);
                    }
                    (rebalance(n), popped)
                },
                KeyOrder::Greater => {
                    let (nr, popped) = insert_link(right, k, v);
                    let n = Box::new(TreeNode { key, val, aux, left, right: Some(nr) });
                    proof {
                        assert(link_map(n.right) == nr.node_map());
                        assert(all_above(n.right, key.rank()));
                        lemma_insert_below(link_map(left), link_map(right), key, val, k, v, false);
                        lemma_rebalanced(*n);
                    }
                    (rebalance(n), popped)
                },
            }
        },
    }
}

/// Takes the entry of least key out of the subtree rooted at `n`.
fn remove_min<K: TreeKey, V>(n: Box<TreeNode<K, V, i32>>) -> (r: (AVLLink<K, V>, K, V))
    requires
        n.node_ordered(),
        avl_balanced(Some(n)),
        avl_height(Some(n)) < 200,
    ensures
        avl_balanced(r.0),
        avl_height(Some(n)) - 1 <= avl_height(r.0) <= avl_height(Some(n)),
        link_ordered(r.0),
        n.node_map().dom().contains(r.1),
        n.node_map()[r.1] == r.2,
        link_map(r.0) == n.node_map().remove(r.1),
        forall|q: K| #[trigger] link_map(r.0).dom().contains(q) ==> q.rank() > r.1.rank(),
    decreases n,
{
    let ghost old_node = *n;
    proof {
        lemma_node_lookup(old_node, old_node.key);
        lemma_avl_size(old_node.left);
        lemma_avl_size(old_node.right);
    }
    let TreeNode { key, val, aux, left, right } = *n;
    match left {
        None => {
            proof {
                assert(link_map(right) =~= old_node.node_map().remove(key));
            }
            (right, key, val)
        },
        Some(l) => {
            let ghost lg = *l;
            proof {
                assert(link_map(old_node.left) == lg.node_map());
            }
            let (nl, mk, mv) = remove_min(l);
            proof {
                lemma_node_lookup(old_node, mk);
                assert forall|q: K| #[trigger] link_map(nl).dom().contains(q) implies q.rank() < key.rank() by {
                    assert(lg.node_map().dom().contains(q));
                }
            }
            let m = Box::new(TreeNode { key, val, aux, left: nl, right });
            proof {
                assert(mk.rank() < key.rank());
                lemma_remove_below(link_map(old_node.left), link_map(right), key, val, mk, true);
                assert forall|q: K| #[trigger] m.node_map().dom().contains(q) implies q.rank() > mk.rank() by {
                    if q != key && !link_map(nl).dom().contains(q) {
                        assert(link_map(right).dom().contains(q));
                    }
                }
                lemma_avl_size(right);
                lemma_rebalanced(*m);
            }
            let b = rebalance(m);
            (Some(b), mk, mv)
        },
    }
}

/// Removes `k` from below `link`, rebalancing on the way up; gives back its value.
fn remove_link<K: TreeKey, V>(link: AVLLink<K, V>, k: &K) -> (r: (AVLLink<K, V>, Option<V>))
    requires
        link_ordered(link),
        avl_balanced(link),
        avl_height(link) < 200,
    ensures
        avl_balanced(r.0),
        avl_height(link) - 1 <= avl_height(r.0) <= avl_height(link),
        link_ordered(r.0),
        link_map(r.0) == link_map(link).remove(*k),
        r.1 == (if link_map(link).dom().contains(*k) { Some(link_map(link)[*k]) } else { None }),
    decreases link,
{
    match link {
        None => {
            proof {
                assert(link_map(link).remove(*k) =~= link_map(link));
            }
            (None, None)
        },
        Some(node) => {
            let ghost old_node = *node;
            proof {
                lemma_node_lookup(old_node, *k);
                lemma_avl_size(old_node.left);
                lemma_avl_size(old_node.right);
            }
            let TreeNode { key, val, aux, left, right } = *node;
            match k.compare(&key) {
                KeyOrder::Equal => {
                    proof {
                        K::lemma_rank_injective(*k, key);
                    }
                    match right {
                        None => {
                            proof {
                                assert(link_map(left) =~= old_node.node_map().remove(*k));
                            }
                            (left, Some(val))
                        },
                        Some(rn) => {
                            if left.is_none() {
                                proof {
                                    assert(link_map(Some(rn)) =~= old_node.node_map().remove(*k));
                                }
                                (Some(rn), Some(val))
                            } else {
                                let ghost rg = *rn;
                                proof {
                                    assert(old_node.right == Some(Box::new(rg)));
                                    assert(old_node.node_ordered());
                                    assert(link_ordered(old_node.right));
                                    assert(rg.node_ordered());
                                    assert(link_map(old_node.right) == rg.node_map());
                                }
                                let (nr, sk, sv) = remove_min(rn);
                                proof {
                                    lemma_node_lookup(old_node, sk);
                                    assert forall|q: K| #[trigger] link_map(left).dom().contains(q) implies q.rank() < sk.rank() by {
                                    }
                                    assert forall|q: K| #[trigger] link_map(nr).dom().contains(q) implies q.rank() > sk.rank() by {
                                    }
                                }
                                let m = Box::new(TreeNode { key: sk, val: sv, aux, left, right: nr });
                                proof {
                                    assert forall|q: K| #[trigger] link_map(nr).dom().contains(q) implies link_map(old_node.right).dom().contains(q) by {
                                        assert(rg.node_map().dom().contains(q));
                                    }
                                    lemma_remove_root(link_map(left), rg.node_map(), key, val, sk, sv);
                                    lemma_avl_size(left);
                                    lemma_rebalanced(*m);
                                }
                                (Some(rebalance(m)), Some(val))
                            }
                        },
                    }
                },
                KeyOrder::Less => {
                    let (nl, popped) = remove_link(left, k);
                    let m = Box::new(TreeNode { key, val, aux, left: nl, right });
                    proof {
                        assert forall|q: K| #[trigger] link_map(nl).dom().contains(q) implies q.rank() < key.rank() by {
                            assert(link_map(old_node.left).dom().contains(q));
                        }
                        lemma_remove_below(link_map(left), link_map(right), key, val, *k, true);
                        lemma_avl_size(right);
                        lemma_rebalanced(*m);
                    }
                    (Some(rebalance(m)), popped)
                },
                KeyOrder::Greater => {
                    let (nr, popped) = remove_link(right, k);
                    let m = Box::new(TreeNode { key, val, aux, left, right: nr });
                    proof {
                        assert forall|q: K| #[trigger] link_map(nr).dom().contains(q) implies q.rank() > key.rank() by {
                            assert(link_map(old_node.right).dom().contains(q));
                        }
                        lemma_remove_below(link_map(left), link_map(right), key, val, *k, false);
                        lemma_avl_size(left);
                        lemma_rebalanced(*m);
                    }
                    (Some(rebalance(m)), popped)
                },
            }
        },
    }
}

/// An ordered map kept as an AVL tree.
pub struct AVL<K: TreeKey, V> {
    root: AVLLink<K, V>,
}

impl<K: TreeKey, V> AVL<K, V> {
    #[verifier::type_invariant]
    spec fn well_formed(self) -> bool {
        &&& link_ordered(self.root)
        &&& avl_balanced(self.root)
        &&& link_size(self.root) <= usize::MAX
    }

    /// The map the tree holds.
    pub closed spec fn map(self) -> Map<K, V> {
        link_map(self.root)
    }

    /// The tree keeps the AVL rule: at every node the recorded height is the
    /// height, and the heights of the two subtrees differ by at most one.
    pub closed spec fn balanced(self) -> bool {
        avl_balanced(self.root)
    }

    /// The height of the tree, -1 when it is empty.
    pub closed spec fn height(self) -> int {
        avl_height(self.root)
    }
}

impl<K: TreeKey, V> View for AVL<K, V> {
    type V = Map<K, V>;

    open spec fn view(&self) -> Map<K, V> {
        self.map()
    }
}

impl<K: TreeKey, V> AVL<K, V> {
    /// The empty map.
    pub fn new() -> (r: Self)
        ensures
            r@ == Map::<K, V>::empty(),
            r.balanced(),
    {
        AVL { root: None }
    }

    /// The value held for `k`, if any.
    pub fn get(&self, k: &K) -> (r: Option<&V>)
        ensures
            r == (if self@.dom().contains(*k) { Some(&self@[*k]) } else { None }),
    {
        proof {
            use_type_invariant(self);
        }
        link_get(&self.root, k)
    }

    /// Maps `k` to `v`; gives back the value `k` had, if any. The tree stays
    /// balanced, and its height grows by at most one.
    pub fn insert(&mut self, k: K, v: V) -> (r: Option<V>)
        requires
            old(self)@.dom().len() < usize::MAX,
        ensures
            final(self)@ == old(self)@.insert(k, v),
            final(self).balanced(),
            old(self).height() <= final(self).height() <= old(self).height() + 1,
            r == (if old(self)@.dom().contains(k) { Some(old(self)@[k]) } else { None }),
    {
        proof {
            use_type_invariant(&*self);
            lemma_avl_height_bound(self.root);
            lemma_size_len(self.root);
        }
        let mut root = None;
        std::mem::swap(&mut root, &mut self.root);
        let (n, popped) = insert_link(root, k, v);
        proof {
            lemma_size_len(Some(n));
            assert(link_map(Some(n)).dom() =~= link_map(root).dom().insert(k));
            assert(link_map(Some(n)).dom().len() <= link_map(root).dom().len() + 1);
        }
        self.root = Some(n);
        popped
    }

    /// Removes `k`; gives back its value, if it had one. The tree stays
    /// balanced, and its height falls by at most one.
    pub fn remove(&mut self, k: &K) -> (r: Option<V>)
        ensures
            final(self)@ == old(self)@.remove(*k),
            final(self).balanced(),
            old(self).height() - 1 <= final(self).height() <= old(self).height(),
            r == (if old(self)@.dom().contains(*k) { Some(old(self)@[*k]) } else { None }),
    {
        proof {
            use_type_invariant(&*self);
            lemma_avl_height_bound(self.root);
            lemma_size_len(self.root);
        }
        let mut root = None;
        std::mem::swap(&mut root, &mut self.root);
        let (n, popped) = remove_link(root, k);
        proof {
            lemma_size_len(n);
            assert(link_map(n).dom() =~= link_map(root).dom().remove(*k));
            assert(link_map(n).dom().len() <= link_map(root).dom().len());
        }
        self.root = n;
        popped
    }
}

} // verus!

verus! {

/// The height of a subtree, counted in nodes along its longest downward path.
pub open spec fn true_height<K, V, A>(l: Option<Box<TreeNode<K, V, A>>>) -> nat
    decreases l,
{
    match l {
        None => 0,
        Some(n) => {
            let hl = true_height(n.left);
            let hr = true_height(n.right);
            1 + if hl > hr { hl } else { hr }
        },
    }
}

/// No subtree is higher than it has nodes.
pub proof fn lemma_height_le_size<K, V, A>(l: Option<Box<TreeNode<K, V, A>>>)
    ensures
        true_height(l) <= link_size(l),
    decreases l,
{
    match l {
        None => {},
        Some(n) => {
            lemma_height_le_size(n.left);
            lemma_height_le_size(n.right);
        },
    }
}

/// Computes the height of a subtree.
fn calc_height<K, V, A>(l: &Option<Box<TreeNode<K, V, A>>>) -> (r: u64)
    requires
        link_size(*l) <= u64::MAX,
    ensures
        r == true_height(*l),
    decreases *l,
{
    proof {
        lemma_height_le_size(*l);
    }
    match l {
        None => 0,
        Some(n) => {
            let hl = calc_height(&n.left);
            let hr = calc_height(&n.right);
            1 + if hl > hr { hl } else { hr }
        },
    }
}

/// The heights of the two subtrees of a node whose balance was found broken.
pub struct BFValidateResult {
    pub h_lf: u64,
    pub h_rh: u64,
    pub bf: i128,
}

impl<K, V> AVLNode<K, V> {
    /// A node of height 0 (no subtrees) holding `key -> value`.
    pub fn new(key: K, value: V) -> (r: Self)
        ensures
            r.key == key,
            r.val == value,
            r.aux == 0,
            r.left is None,
            r.right is None,
    {
        TreeNode::leaf(key, value, 0)
    }

    /// Checks the AVL balance at this node: the heights of its subtrees, computed
    /// afresh, differ by at most one.
    pub fn self_validate(&self) -> (r: Result<(), BFValidateResult>)
        requires
            self.node_size() <= u64::MAX,
        ensures
            r is Ok <==> -1 <= true_height(self.right) - true_height(self.left) <= 1,
            r matches Err(e) ==> e.h_lf == true_height(self.left) && e.h_rh == true_height(self.right)
                && e.bf == true_height(self.right) - true_height(self.left),
    {
        let h_lf = calc_height(&self.left);
        let h_rh = calc_height(&self.right);
        proof {
            lemma_height_le_size(self.left);
            lemma_height_le_size(self.right);
        }
        let bf = h_rh as i128 - h_lf as i128;
        if bf >= 2 || bf <= -2 {
            Err(BFValidateResult { h_lf, h_rh, bf })
        } else {
            Ok(())
        }
    }
}

} // verus!

//! Left-leaning red-black trees: each node is red or black, red links lean
//! left, and insertion and removal restore the colouring by rotations and
//! colour flips on the way back up.

use vstd::prelude::*;
use crate::tree::{
    rotl, rotr, TreeKey, KeyOrder, TreeNode, link_map, link_ordered, link_get, rotate_left, rotate_right,
    lemma_node_lookup, lemma_insert_below, lemma_remove_below, all_below, all_above, link_modify,
    same_shape,
};
use crate::rb::black_height;

verus! {

/// A node of a left-leaning red-black tree; its balancing data is its colour, `true` for red.
pub type LLRBNode<K, V> = TreeNode<K, V, bool>;

/// A subtree of a left-leaning red-black tree.
pub type LLRBLink<K, V> = Option<Box<LLRBNode<K, V>>>;

impl<K, V> LLRBNode<K, V> {
    /// A red node holding `key -> value` with no subtrees.
    pub fn new(key: K, value: V) -> (r: Self)
        ensures
            r.key == key,
            r.val == value,
            r.aux,
            r.left is None,
            r.right is None,
    {
        TreeNode::leaf(key, value, true)
    }
}

/// The root of the subtree is red.
pub open spec fn red_link<K, V>(l: LLRBLink<K, V>) -> bool {
    l matches Some(n) && n.aux
}

/// `n` with its root coloured `c`.
pub open spec fn recolored<K, V>(n: LLRBNode<K, V>, c: bool) -> LLRBNode<K, V> {
    TreeNode { key: n.key, val: n.val, aux: c, left: n.left, right: n.right }
}

/// The subtree with its root coloured `c`.
pub open spec fn recolored_link<K, V>(l: LLRBLink<K, V>, c: bool) -> LLRBLink<K, V> {
    match l {
        Some(b) => Some(Box::new(recolored(*b, c))),
        None => None,
    }
}

/// `n` with the colours of its root and of its children inverted.
pub open spec fn flipped<K, V>(n: LLRBNode<K, V>) -> LLRBNode<K, V> {
    TreeNode {
        key: n.key,
        val: n.val,
        aux: !n.aux,
        left: recolored_link(n.left, !red_link(n.left)),
        right: recolored_link(n.right, !red_link(n.right)),
    }
}

/// `x` rotated left, the new root in the colour of the old one, which turns red.
pub open spec fn llrb_rotl<K, V>(x: LLRBNode<K, V>) -> LLRBNode<K, V> {
    let z = rotl(x);
    match z.left {
        Some(l) => TreeNode { key: z.key, val: z.val, aux: l.aux, left: Some(Box::new(recolored(*l, true))), right: z.right },
        None => TreeNode { key: z.key, val: z.val, aux: false, left: None, right: z.right },
    }
}

/// `x` rotated right, the new root in the colour of the old one, which turns red.
pub open spec fn llrb_rotr<K, V>(x: LLRBNode<K, V>) -> LLRBNode<K, V> {
    let z = rotr(x);
    match z.right {
        Some(rn) => TreeNode { key: z.key, val: z.val, aux: rn.aux, left: z.left, right: Some(Box::new(recolored(*rn, true))) },
        None => TreeNode { key: z.key, val: z.val, aux: false, left: z.left, right: None },
    }
}

/// `x` with its right child rotated right where it has a left child, then
/// rotated left itself where it has a right child.
pub open spec fn double_rotated_left<K, V>(x: LLRBNode<K, V>) -> LLRBNode<K, V> {
    match x.right {
        Some(rn) => if rn.left is Some {
            llrb_rotl(TreeNode { key: x.key, val: x.val, aux: x.aux, left: x.left, right: Some(Box::new(llrb_rotr(*rn))) })
        } else {
            llrb_rotl(x)
        },
        None => x,
    }
}

/// `x` with a red right link turned left, two reds in a row on the left rotated
/// right, and then two red children flipped.
pub open spec fn fixed_up<K, V>(x: LLRBNode<K, V>) -> LLRBNode<K, V> {
    let x1 = if red_link(x.right) { llrb_rotl(x) } else { x };
    let x2 = if (x1.left matches Some(l) && l.aux && red_link(l.left)) { llrb_rotr(x1) } else { x1 };
    if red_link(x2.left) && red_link(x2.right) { flipped(x2) } else { x2 }
}

/// `x` flipped, and where the right child then has a red left child, rotated
/// twice and flipped again.
pub open spec fn moved_red_left<K, V>(x: LLRBNode<K, V>) -> LLRBNode<K, V> {
    let x1 = flipped(x);
    if (x1.right matches Some(rn) && red_link(rn.left)) { flipped(double_rotated_left(x1)) } else { x1 }
}

/// `x` flipped, and where the left child then has a red left child, rotated
/// right and flipped again.
pub open spec fn moved_red_right<K, V>(x: LLRBNode<K, V>) -> LLRBNode<K, V> {
    let x1 = flipped(x);
    if (x1.left matches Some(l) && red_link(l.left)) { flipped(llrb_rotr(x1)) } else { x1 }
}

/// The colour rules of a left-leaning red-black tree: no red link leans right,
/// no red node has a red left child, and every path down from each node meets
/// the same number of black nodes.
pub open spec fn llrb_valid<K, V>(l: LLRBLink<K, V>) -> bool
    decreases l,
{
    match l {
        None => true,
        Some(n) => {
            &&& llrb_valid(n.left)
            &&& llrb_valid(n.right)
            &&& !red_link(n.right)
            &&& !(n.aux && red_link(n.left))
            &&& black_height(n.left) == black_height(n.right)
        },
    }
}

/// A red node whose subtrees keep the colour rules and agree in black height,
/// and whose right child is black: the rules hold but for a red left child.
pub open spec fn llrb_almost<K, V>(n: LLRBNode<K, V>) -> bool {
    &&& n.aux
    &&& llrb_valid(n.left)
    &&& llrb_valid(n.right)
    &&& !red_link(n.right)
    &&& black_height(n.left) == black_height(n.right)
}

/// What inserting below `x` may give back: a tree of the same black height
/// that keeps the colour rules where `x` had a black root (or was empty), and a
/// red one that keeps them but for a red left child where `x` had a red root.
pub open spec fn llrb_grown<K, V>(x: LLRBLink<K, V>, r: LLRBNode<K, V>) -> bool {
    &&& black_height(Some(Box::new(r))) == black_height(x)
    &&& (if red_link(x) { llrb_almost(r) } else { llrb_valid(Some(Box::new(r))) })
}

/// Putting back at `n` a left subtree grown by an insertion and fixing up gives
/// a tree grown from `n`.
proof fn lemma_llrb_insert_left<K, V>(n: LLRBNode<K, V>, c: LLRBNode<K, V>)
    requires
        llrb_valid(Some(Box::new(n))),
        llrb_grown(n.left, c),
    ensures
        llrb_grown(Some(Box::new(n)), fixed_up(TreeNode { key: n.key, val: n.val, aux: n.aux, left: Some(Box::new(c)), right: n.right })),
{
    let m = TreeNode { key: n.key, val: n.val, aux: n.aux, left: Some(Box::new(c)), right: n.right };
    assert(!red_link(m.right));
    if !n.aux && red_link(n.left) && red_link(c.left) {
        let cl = *c.left->0;
        assert(c.left == Some(Box::new(cl)));
        assert(llrb_valid(Some(Box::new(cl))));
        assert(llrb_valid(cl.left) && llrb_valid(cl.right) && !red_link(cl.right));
        let x2 = TreeNode { key: c.key, val: c.val, aux: false, left: c.left,
            right: Some(Box::new(TreeNode { key: n.key, val: n.val, aux: true, left: c.right, right: n.right })) };
        assert(llrb_rotr(m) == x2);
        let lb = TreeNode { key: cl.key, val: cl.val, aux: false, left: cl.left, right: cl.right };
        let rb = TreeNode { key: n.key, val: n.val, aux: false, left: c.right, right: n.right };
        assert(llrb_valid(Some(Box::new(lb))));
        assert(llrb_valid(Some(Box::new(rb))));
        let r = TreeNode { key: c.key, val: c.val, aux: true, left: Some(Box::new(lb)), right: Some(Box::new(rb)) };
        assert(flipped(x2) == r);
        assert(fixed_up(m) == r);
        assert(llrb_valid(Some(Box::new(r))));
    } else {
        if !(!n.aux && red_link(n.left)) {
            assert(!red_link(n.left));
            assert(llrb_valid(Some(Box::new(c))));
            assert(!(c.aux && red_link(c.left)));
        }
        assert(fixed_up(m) == m);
        if !n.aux {
            assert(llrb_valid(Some(Box::new(c))));
            assert(llrb_valid(Some(Box::new(m))));
        }
    }
}

/// Putting back at `n` a right subtree grown by an insertion and fixing up gives
/// a tree grown from `n`.
proof fn lemma_llrb_insert_right<K, V>(n: LLRBNode<K, V>, c: LLRBNode<K, V>)
    requires
        llrb_valid(Some(Box::new(n))),
        llrb_grown(n.right, c),
    ensures
        llrb_grown(Some(Box::new(n)), fixed_up(TreeNode { key: n.key, val: n.val, aux: n.aux, left: n.left, right: Some(Box::new(c)) })),
{
    let m = TreeNode { key: n.key, val: n.val, aux: n.aux, left: n.left, right: Some(Box::new(c)) };
    assert(!red_link(n.right));
    if c.aux {
        let nl = TreeNode { key: n.key, val: n.val, aux: true, left: n.left, right: c.left };
        let x1 = TreeNode { key: c.key, val: c.val, aux: n.aux, left: Some(Box::new(nl)), right: c.right };
        assert(llrb_rotl(m) == x1);
        if !n.aux && red_link(n.left) {
            let l0 = *n.left->0;
            assert(n.left == Some(Box::new(l0)));
            assert(llrb_valid(Some(Box::new(l0))));
            assert(llrb_valid(l0.left) && llrb_valid(l0.right) && !red_link(l0.right));
            let x2 = TreeNode { key: n.key, val: n.val, aux: false, left: n.left,
                right: Some(Box::new(TreeNode { key: c.key, val: c.val, aux: true, left: c.left, right: c.right })) };
            assert(llrb_rotr(x1) == x2);
            let lb = TreeNode { key: l0.key, val: l0.val, aux: false, left: l0.left, right: l0.right };
            let rb = TreeNode { key: c.key, val: c.val, aux: false, left: c.left, right: c.right };
            assert(llrb_valid(Some(Box::new(lb))));
            assert(llrb_valid(Some(Box::new(rb))));
            let r = TreeNode { key: n.key, val: n.val, aux: true, left: Some(Box::new(lb)), right: Some(Box::new(rb)) };
            assert(flipped(x2) == r);
            assert(fixed_up(m) == r);
            assert(llrb_valid(Some(Box::new(r))));
        } else {
            assert(llrb_valid(Some(Box::new(nl))));
            assert(fixed_up(m) == x1);
            if !n.aux {
                assert(llrb_valid(Some(Box::new(x1))));
            }
        }
    } else {
        if red_link(n.left) {
            let l0 = *n.left->0;
            assert(n.left == Some(Box::new(l0)));
            assert(llrb_valid(Some(Box::new(l0))));
            assert(!red_link(l0.left));
        }
        assert(fixed_up(m) == m);
        assert(llrb_valid(Some(Box::new(m))));
    }
}

/// Subtrees of the same shape and colours keep the colour rules alike.
proof fn lemma_same_shape_colors<K, V>(a: LLRBLink<K, V>, b: LLRBLink<K, V>)
    requires
        same_shape(a, b),
    ensures
        llrb_valid(a) == llrb_valid(b),
        black_height(a) == black_height(b),
        red_link(a) == red_link(b),
    decreases a,
{
    match (a, b) {
        (Some(x), Some(y)) => {
            lemma_same_shape_colors(x.left, y.left);
            lemma_same_shape_colors(x.right, y.right);
        },
        _ => {},
    }
}

/// The black height of `l` where `l` keeps the colour rules, `None` where it
/// breaks one (or where the height does not fit in a `u64`).
fn check_colors<K, V>(l: &LLRBLink<K, V>) -> (r: Option<u64>)
    ensures
        r matches Some(h) ==> llrb_valid(*l) && h == black_height(*l),
        llrb_valid(*l) && black_height(*l) <= u64::MAX ==> r == Some(black_height(*l) as u64),
    decreases l,
{
    match l {
        None => Some(0),
        Some(n) => {
            let hl = check_colors(&n.left);
            let hr = check_colors(&n.right);
            match (hl, hr) {
                (Some(a), Some(b)) => {
                    if a != b || is_red(&n.right) || (n.aux && is_red(&n.left)) {
                        return None;
                    }
                    if n.aux {
                        Some(a)
                    } else if a < u64::MAX {
                        Some(a + 1)
                    } else {
                        None
                    }
                },
                _ => None,
            }
        },
    }
}

/// The root of the subtree is red.
fn is_red<K, V>(l: &LLRBLink<K, V>) -> (r: bool)
    ensures
        r == (l matches Some(n) && n.aux),
{
    match l {
        Some(n) => n.aux,
        None => false,
    }
}

/// The root of `n` recoloured `c`.
fn with_color<K: TreeKey, V>(n: Box<LLRBNode<K, V>>, c: bool) -> (r: Box<LLRBNode<K, V>>)
    ensures
        *r == recolored(*n, c),
        r.key == n.key,
        r.left == n.left,
        r.right == n.right,
        r.aux == c,
        r.node_map() == n.node_map(),
        r.node_ordered() == n.node_ordered(),
        r.node_size() == n.node_size(),
{
    let TreeNode { key, val, aux: _, left, right } = *n;
    Box::new(TreeNode { key, val, aux: c, left, right })
}

/// A subtree whose root is recoloured: its map and order stay.
fn link_with_color<K: TreeKey, V>(l: LLRBLink<K, V>, c: bool) -> (r: LLRBLink<K, V>)
    ensures
        r == recolored_link(l, c),
        link_map(r) == link_map(l),
        link_ordered(r) == link_ordered(l),
        crate::tree::link_size(r) == crate::tree::link_size(l),
        r is Some <==> l is Some,
{
    match l {
        Some(n) => Some(with_color(n, c)),
        None => None,
    }
}

/// Inverts the colours of `n` and of its children (splitting or merging a 4-node).
fn color_flip<K: TreeKey, V>(n: Box<LLRBNode<K, V>>) -> (r: Box<LLRBNode<K, V>>)
    requires
        n.node_ordered(),
    ensures
        *r == flipped(*n),
        r.node_ordered(),
        r.node_map() == n.node_map(),
        r.key == n.key,
        r.left is Some <==> n.left is Some,
        r.right is Some <==> n.right is Some,
        r.node_size() == n.node_size(),
{
    let lc = !is_red(&n.left);
    let rc = !is_red(&n.right);
    let TreeNode { key, val, aux, left, right } = *n;
    let left2 = link_with_color(left, lc);
    let right2 = link_with_color(right, rc);
    Box::new(TreeNode { key, val, aux: !aux, left: left2, right: right2 })
}

/// A left rotation after which the new root takes the old root's colour and the
/// old root turns red.
fn llrb_rotate_left<K: TreeKey, V>(x: Box<LLRBNode<K, V>>) -> (r: Box<LLRBNode<K, V>>)
    requires
        x.node_ordered(),
        x.right is Some,
    ensures
        *r == llrb_rotl(*x),
        r.node_ordered(),
        r.node_map() == x.node_map(),
        r.node_size() == x.node_size(),
        r.key.rank() > x.key.rank(),
        r.left is Some,
{
    proof {
        lemma_node_lookup(*x.right->0, x.right->0.key);
        assert(link_map(x.right) == x.right->0.node_map());
        assert(link_map(x.right).dom().contains(x.right->0.key));
    }
    let z = rotate_left(x);
    let TreeNode { key, val, aux: _, left, right } = *z;
    let (left2, c) = match left {
        Some(l) => {
            let c = l.aux;
            (Some(with_color(l, true)), c)
        },
        None => (None, false),
    };
    proof {
        assert(link_map(left2) == link_map(left));
        assert(link_ordered(left2) == link_ordered(left));
        assert(crate::tree::link_size(left2) == crate::tree::link_size(left));
    }
    Box::new(TreeNode { key, val, aux: c, left: left2, right })
}

/// A right rotation after which the new root takes the old root's colour and the
/// old root turns red.
fn llrb_rotate_right<K: TreeKey, V>(x: Box<LLRBNode<K, V>>) -> (r: Box<LLRBNode<K, V>>)
    requires
        x.node_ordered(),
        x.left is Some,
    ensures
        *r == llrb_rotr(*x),
        r.node_ordered(),
        r.node_map() == x.node_map(),
        r.node_size() == x.node_size(),
        r.key.rank() < x.key.rank(),
        r.right is Some,
{
    proof {
        lemma_node_lookup(*x.left->0, x.left->0.key);
        assert(link_map(x.left) == x.left->0.node_map());
        assert(link_map(x.left).dom().contains(x.left->0.key));
    }
    let z = rotate_right(x);
    let TreeNode { key, val, aux: _, left, right } = *z;
    let (right2, c) = match right {
        Some(rn) => {
            let c = rn.aux;
            (Some(with_color(rn, true)), c)
        },
        None => (None, false),
    };
    proof {
        assert(link_map(right2) == link_map(right));
        assert(link_ordered(right2) == link_ordered(right));
        assert(crate::tree::link_size(right2) == crate::tree::link_size(right));
    }
    Box::new(TreeNode { key, val, aux: c, left, right: right2 })
}

/// Rotates the right child right, then `x` left.
fn llrb_double_rotate_left<K: TreeKey, V>(x: Box<LLRBNode<K, V>>) -> (r: Box<LLRBNode<K, V>>)
    requires
        x.node_ordered(),
    ensures
        *r == double_rotated_left(*x),
        r.node_ordered(),
        r.node_map() == x.node_map(),
        r.node_size() == x.node_size(),
        r.key.rank() >= x.key.rank(),
{
    let ghost old_x = *x;
    let TreeNode { key, val, aux, left, right } = *x;
    match right {
        Some(rn) => {
            if rn.left.is_some() {
                let ghost rg = *rn;
                proof {
                    assert(old_x.right == Some(Box::new(rg)));
                    assert(link_ordered(old_x.right));
                }
                let rn2 = llrb_rotate_right(rn);
                let x2 = Box::new(TreeNode { key, val, aux, left, right: Some(rn2) });
                proof {
                    assert(link_map(x2.right) == link_map(old_x.right));
                    assert(crate::tree::link_size(x2.right) == crate::tree::link_size(old_x.right));
                }
                llrb_rotate_left(x2)
            } else {
                let x2 = Box::new(TreeNode { key, val, aux, left, right: Some(rn) });
                llrb_rotate_left(x2)
            }
        },
        None => Box::new(TreeNode { key, val, aux, left, right: None }),
    }
}

/// Leans red right links left, balances two reds in a row, and splits 4-nodes.
fn fixup<K: TreeKey, V>(x: Box<LLRBNode<K, V>>) -> (r: Box<LLRBNode<K, V>>)
    requires
        x.node_ordered(),
    ensures
        *r == fixed_up(*x),
        r.node_ordered(),
        r.node_map() == x.node_map(),
        r.node_size() == x.node_size(),
{
    let mut x = x;
    if is_red(&x.right) {
        x = llrb_rotate_left(x);
    }
    let two_reds = match &x.left {
        Some(l) => l.aux && is_red(&l.left),
        None => false,
    };
    if two_reds {
        x = llrb_rotate_right(x);
    }
    if is_red(&x.left) && is_red(&x.right) {
        x = color_flip(x);
    }
    x
}

/// Makes the left child or one of its children red before descending left.
fn move_red_left<K: TreeKey, V>(x: Box<LLRBNode<K, V>>) -> (r: Box<LLRBNode<K, V>>)
    requires
        x.node_ordered(),
    ensures
        *r == moved_red_left(*x),
        r.node_ordered(),
        r.node_map() == x.node_map(),
        r.node_size() == x.node_size(),
        r.key.rank() >= x.key.rank(),
{
    let x = color_flip(x);
    let red_rl = match &x.right {
        Some(rn) => is_red(&rn.left),
        None => false,
    };
    if red_rl {
        let x = llrb_double_rotate_left(x);
        color_flip(x)
    } else {
        x
    }
}

/// Makes the right child or one of its children red before descending right.
fn move_red_right<K: TreeKey, V>(x: Box<LLRBNode<K, V>>) -> (r: Box<LLRBNode<K, V>>)
    requires
        x.node_ordered(),
    ensures
        *r == moved_red_right(*x),
        r.node_ordered(),
        r.node_map() == x.node_map(),
        r.node_size() == x.node_size(),
        r.key.rank() <= x.key.rank(),
        x.right is Some ==> r.right is Some,
{
    let x = color_flip(x);
    let red_ll = match &x.left {
        Some(l) => is_red(&l.left),
        None => false,
    };
    if red_ll {
        let x = llrb_rotate_right(x);
        color_flip(x)
    } else {
        x
    }
}

/// Inserts `k -> v` below `x` where `k` is absent, fixing colours on the way up;
/// where `k` is present nothing changes. Tells whether it inserted.
fn insert_at<K: TreeKey, V>(x: LLRBLink<K, V>, k: K, v: V) -> (r: (Box<LLRBNode<K, V>>, bool))
    requires
        link_ordered(x),
    ensures
        r.0.node_ordered(),
        r.1 == !link_map(x).dom().contains(k),
        r.0.node_map() == (if r.1 { link_map(x).insert(k, v) } else { link_map(x) }),
        !r.1 ==> x == Some(r.0),
        llrb_valid(x) ==> llrb_grown(x, *r.0),
    decreases x,
{
    match x {
        None => (Box::new(LLRBNode::new(k, v)), true),
        Some(node) => {
            let ghost old_node = *node;
            proof {
                lemma_node_lookup(old_node, k);
            }
            let TreeNode { key, val, aux, left, right } = *node;
            let n = match k.compare(&key) {
                KeyOrder::Equal => {
                    proof {
                        K::lemma_rank_injective(k, key);
                    }
                    return (Box::new(TreeNode { key, val, aux, left, right }), false);
                },
                KeyOrder::Less => {
                    let (nl, ins) = insert_at(left, k, v);
                    if !ins {
                        proof {
                            assert(link_map(Some(nl)) == link_map(left));
                        }
                        return (Box::new(TreeNode { key, val, aux, left: Some(nl), right }), false);
                    }
                    let n = Box::new(TreeNode { key, val, aux, left: Some(nl), right });
                    proof {
                        assert(link_map(n.left) == nl.node_map());
                        assert(all_below(n.left, key.rank()));
                        lemma_insert_below(link_map(left), link_map(right), key, val, k, v, true);
                        if llrb_valid(x) {
                            lemma_llrb_insert_left(old_node, *nl);
                        }
                    }
                    n
                },
                KeyOrder::Greater => {
                    let (nr, ins) = insert_at(right, k, v);
                    if !ins {
                        proof {
                            assert(link_map(Some(nr)) == link_map(right));
                        }
                        return (Box::new(TreeNode { key, val, aux, left, right: Some(nr) }), false);
                    }
                    let n = Box::new(TreeNode { key, val, aux, left, right: Some(nr) });
                    proof {
                        assert(link_map(n.right) == nr.node_map());
                        assert(all_above(n.right, key.rank()));
                        lemma_insert_below(link_map(left), link_map(right), key, val, k, v, false);
                        if llrb_valid(x) {
                            lemma_llrb_insert_right(old_node, *nr);
                        }
                    }
                    n
                },
            };
            (fixup(n), true)
        },
    }
}

/// Takes the entry of least key out of the subtree rooted at `x`, moving reds down
/// on the way and fixing colours on the way back up.
fn remove_min<K: TreeKey, V>(x: Box<LLRBNode<K, V>>) -> (r: (LLRBLink<K, V>, K, V))
    requires
        x.node_ordered(),
    ensures
        link_ordered(r.0),
        x.node_map().dom().contains(r.1),
        x.node_map()[r.1] == r.2,
        link_map(r.0) == x.node_map().remove(r.1),
        forall|q: K| #[trigger] link_map(r.0).dom().contains(q) ==> q.rank() > r.1.rank(),
    decreases x.node_size(),
{
    if x.left.is_none() {
        let ghost old_node = *x;
        proof {
            lemma_node_lookup(old_node, old_node.key);
        }
        let TreeNode { key, val, aux: _, left: _, right } = *x;
        proof {
            assert(link_map(right) =~= old_node.node_map().remove(key));
        }
        return (right, key, val);
    }
    let red_l = match &x.left {
        Some(l) => l.aux || is_red(&l.left),
        None => false,
    };
    let x = if !red_l { move_red_left(x) } else { x };
    let ghost old_node = *x;
    proof {
        lemma_node_lookup(old_node, old_node.key);
    }
    let TreeNode { key, val, aux, left, right } = *x;
    match left {
        None => {
            proof {
                assert(link_map(right) =~= old_node.node_map().remove(key));
            }
            (right, key, val)
        },
        Some(l) => {
            let ghost lg = *l;
            proof {
                assert(link_map(old_node.left) == lg.node_map());
            }
            let (nl, mk, mv) = remove_min(l);
            proof {
                lemma_node_lookup(old_node, mk);
                assert forall|q: K| #[trigger] link_map(nl).dom().contains(q) implies q.rank() < key.rank() by {
                    assert(lg.node_map().dom().contains(q));
                }
            }
            let m = Box::new(TreeNode { key, val, aux, left: nl, right });
            proof {
                assert(mk.rank() < key.rank());
                lemma_remove_below(link_map(old_node.left), link_map(right), key, val, mk, true);
                assert forall|q: K| #[trigger] m.node_map().dom().contains(q) implies q.rank() > mk.rank() by {
                    if q != key && !link_map(nl).dom().contains(q) {
                        assert(link_map(right).dom().contains(q));
                    }
                }
            }
            (Some(fixup(m)), mk, mv)
        },
    }
}

/// Removes `k` from below `x`, moving reds down on the way and fixing colours on
/// the way back up; gives back its value.
fn remove_at<K: TreeKey, V>(x: Box<LLRBNode<K, V>>, k: &K) -> (r: (LLRBLink<K, V>, Option<V>))
    requires
        x.node_ordered(),
    ensures
        link_ordered(r.0),
        link_map(r.0) == x.node_map().remove(*k),
        r.1 == (if x.node_map().dom().contains(*k) { Some(x.node_map()[*k]) } else { None }),
    decreases x.node_size(),
{
    let ghost m0 = x.node_map();
    if matches!(k.compare(&x.key), KeyOrder::Less) {
        if x.left.is_none() {
            proof {
                lemma_node_lookup(*x, *k);
                assert(m0.remove(*k) =~= m0);
            }
            return (Some(fixup(x)), None);
        }
        let red_l = match &x.left {
            Some(l) => l.aux || is_red(&l.left),
            None => false,
        };
        let x = if !red_l { move_red_left(x) } else { x };
        let ghost old_node = *x;
        proof {
            lemma_node_lookup(old_node, *k);
        }
        let TreeNode { key, val, aux, left, right } = *x;
        match left {
            None => {
                let m = Box::new(TreeNode { key, val, aux, left: None, right });
                proof {
                    assert(m.node_map() == old_node.node_map());
                    assert(m0.remove(*k) =~= m0);
                }
                (Some(fixup(m)), None)
            },
            Some(l) => {
                let ghost lg = *l;
                proof {
                    assert(link_map(old_node.left) == lg.node_map());
                }
                let (nl, popped) = remove_at(l, k);
                let m = Box::new(TreeNode { key, val, aux, left: nl, right });
                proof {
                    assert forall|q: K| #[trigger] link_map(nl).dom().contains(q) implies q.rank() < key.rank() by {
                        assert(lg.node_map().dom().contains(q));
                    }
                    lemma_remove_below(lg.node_map(), link_map(right), key, val, *k, true);
                }
                (Some(fixup(m)), popped)
            },
        }
    } else {
        let x = if is_red(&x.left) { llrb_rotate_right(x) } else { x };
        let ghost x1 = *x;
        if x.right.is_none() && matches!(k.compare(&x.key), KeyOrder::Equal) {
            proof {
                lemma_node_lookup(x1, *k);
                K::lemma_rank_injective(*k, x1.key);
            }
            let TreeNode { key, val, aux: _, left, right: _ } = *x;
            proof {
                assert(link_map(left) =~= m0.remove(*k));
            }
            return (left, Some(val));
        }
        if x.right.is_none() {
            proof {
                lemma_node_lookup(x1, *k);
                assert(m0.remove(*k) =~= m0);
            }
            return (Some(fixup(x)), None);
        }
        let red_r = match &x.right {
            Some(rn) => rn.aux || is_red(&rn.left),
            None => false,
        };
        let x = if !red_r { move_red_right(x) } else { x };
        let ghost old_node = *x;
        proof {
            lemma_node_lookup(old_node, *k);
        }
        let TreeNode { key, val, aux, left, right } = *x;
        let rn = match right {
            Some(rn) => rn,
            None => {
                proof {
                    assert(false);
                }
                return (None, None);
            },
        };
        let ghost rg = *rn;
        proof {
            assert(old_node.right == Some(Box::new(rg)));
            assert(link_ordered(old_node.right));
            assert(link_map(old_node.right) == rg.node_map());
        }
        if matches!(k.compare(&key), KeyOrder::Equal) {
            proof {
                K::lemma_rank_injective(*k, key);
            }
            let (nr, sk, sv) = remove_min(rn);
            proof {
                lemma_node_lookup(old_node, sk);
            }
            let m = Box::new(TreeNode { key: sk, val: sv, aux, left, right: nr });
            proof {
                assert forall|q: K| #[trigger] link_map(nr).dom().contains(q) implies link_map(old_node.right).dom().contains(q) by {
                    assert(rg.node_map().dom().contains(q));
                }
                crate::tree::lemma_remove_root(link_map(left), rg.node_map(), key, val, sk, sv);
            }
            (Some(fixup(m)), Some(val))
        } else {
            let (nr, popped) = remove_at(rn, k);
            let m = Box::new(TreeNode { key, val, aux, left, right: nr });
            proof {
                assert forall|q: K| #[trigger] link_map(nr).dom().contains(q) implies q.rank() > key.rank() by {
                    assert(rg.node_map().dom().contains(q));
                }
                lemma_remove_below(link_map(left), rg.node_map(), key, val, *k, false);
            }
            (Some(fixup(m)), popped)
        }
    }
}

/// An ordered map kept as a left-leaning red-black tree.
pub struct LLRB<K: TreeKey, V> {
    root: LLRBLink<K, V>,
}

impl<K: TreeKey, V> LLRB<K, V> {
    #[verifier::type_invariant]
    spec fn well_formed(self) -> bool {
        link_ordered(self.root)
    }

    /// The map the tree holds.
    pub closed spec fn map(self) -> Map<K, V> {
        link_map(self.root)
    }

    /// The tree keeps the colour rules at every node.
    pub closed spec fn balanced(self) -> bool {
        llrb_valid(self.root)
    }

    /// The number of black nodes on every path down from the root.
    pub closed spec fn black_depth(self) -> nat {
        black_height(self.root)
    }
}

impl<K: TreeKey, V> View for LLRB<K, V> {
    type V = Map<K, V>;

    open spec fn view(&self) -> Map<K, V> {
        self.map()
    }
}

impl<K: TreeKey, V> LLRB<K, V> {
    /// The empty map.
    pub fn new() -> (r: Self)
        ensures
            r@ == Map::<K, V>::empty(),
            r.balanced(),
    {
        LLRB { root: None }
    }

    /// Checks the colour rules at every node: `Ok` only where they hold, and
    /// `Ok` wherever they hold with a black depth that fits in a `u64`.
    pub fn self_validate(&self) -> (r: Result<(), ()>)
        ensures
            r is Ok ==> self.balanced(),
            self.balanced() && self.black_depth() <= u64::MAX ==> r is Ok,
    {
        match check_colors(&self.root) {
            Some(_) => Ok(()),
            None => Err(()),
        }
    }

    /// Adds `key -> value` where `key` is absent; tells whether it did. The root
    /// is painted black. A tree that kept the colour rules keeps them.
    pub fn insert(&mut self, key: K, value: V) -> (r: bool)
        ensures
            r == !old(self)@.dom().contains(key),
            final(self)@ == (if r { old(self)@.insert(key, value) } else { old(self)@ }),
            old(self).balanced() ==> final(self).balanced(),
    {
        proof {
            use_type_invariant(&*self);
        }
        let mut root = None;
        std::mem::swap(&mut root, &mut self.root);
        let (n, inserted) = insert_at(root, key, value);
        let ghost ng = *n;
        let b = with_color(n, false);
        proof {
            if llrb_valid(root) {
                assert(llrb_valid(ng.left) && llrb_valid(ng.right) && !red_link(ng.right));
                assert(llrb_valid(Some(b)));
            }
        }
        self.root = Some(b);
        inserted
    }

    /// Removes `key`; gives back its value, if it had one. The root is painted black.
    pub fn remove(&mut self, key: &K) -> (r: Option<V>)
        ensures
            final(self)@ == old(self)@.remove(*key),
            r == (if old(self)@.dom().contains(*key) { Some(old(self)@[*key]) } else { None }),
    {
        proof {
            use_type_invariant(&*self);
        }
        let mut root = None;
        std::mem::swap(&mut root, &mut self.root);
        match root {
            None => {
                proof {
                    assert(old(self)@.remove(*key) =~= old(self)@);
                }
                None
            },
            Some(n) => {
                let (t, popped) = remove_at(n, key);
                self.root = link_with_color(t, false);
                popped
            },
        }
    }

    /// Sets the value of `key` where it is present; tells whether it was.
    pub fn modify(&mut self, key: &K, value: V) -> (r: bool)
        ensures
            r == old(self)@.dom().contains(*key),
            final(self)@ == (if r { old(self)@.insert(*key, value) } else { old(self)@ }),
            final(self).balanced() == old(self).balanced(),
    {
        proof {
            use_type_invariant(&*self);
        }
        let mut root = None;
        std::mem::swap(&mut root, &mut self.root);
        let (n, old_value) = link_modify(root, key, value);
        proof {
            lemma_same_shape_colors(n, root);
        }
        self.root = n;
        old_value.is_some()
    }

    /// The value held for `key`, if any.
    pub fn lookup(&self, key: &K) -> (r: Option<&V>)
        ensures
            r == (if self@.dom().contains(*key) { Some(&self@[*key]) } else { None }),
    {
        proof {
            use_type_invariant(self);
        }
        link_get(&self.root, key)
    }
}

} // verus!

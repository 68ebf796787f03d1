//! Red-black trees: each node is red or black, no red node has a red child, and
//! every path down from a node meets the same number of black nodes. Insertion
//! adds a red leaf and repairs a red node under a red parent on the way back up,
//! by recolouring when the parent's sibling is red and by one or two rotations
//! when it is black; removal repairs a path that lost a black node, by the four
//! cases of the sibling's colour and of its children's.

use vstd::prelude::*;
use crate::tree::{
    TreeKey, KeyOrder, TreeNode, link_map, link_ordered, link_size, link_get, rotate_left, rotate_right,
    lemma_node_lookup, lemma_insert_below, lemma_remove_below, lemma_remove_root, all_below, all_above,
};

verus! {

/// A subtree of a red-black tree; the colour of a node is `true` for red.
pub type RBLink<K, V> = Option<Box<TreeNode<K, V, bool>>>;

/// The number of black nodes on the leftmost path down from the root of `l`.
pub open spec fn black_height<K, V>(l: RBLink<K, V>) -> nat
    decreases l,
{
    match l {
        None => 0,
        Some(n) => black_height(n.left) + (if n.aux { 0nat } else { 1nat }),
    }
}

/// No red node of `l` has a red child, and every path down from each node of `l`
/// meets the same number of black nodes.
pub open spec fn rb_balanced<K, V>(l: RBLink<K, V>) -> bool
    decreases l,
{
    match l {
        None => true,
        Some(n) => {
            &&& rb_balanced(n.left)
            &&& rb_balanced(n.right)
            &&& black_height(n.left) == black_height(n.right)
            &&& n.aux ==> !(n.left matches Some(c) && c.aux) && !(n.right matches Some(c) && c.aux)
        },
    }
}

/// The colour rules hold below the root and the black heights of the root's
/// subtrees agree; a red root may have one red child, not two.
pub open spec fn rb_almost<K, V>(l: RBLink<K, V>) -> bool {
    match l {
        None => true,
        Some(n) => {
            &&& rb_balanced(n.left)
            &&& rb_balanced(n.right)
            &&& black_height(n.left) == black_height(n.right)
            &&& n.aux ==> !((n.left matches Some(c) && c.aux) && (n.right matches Some(c) && c.aux))
        },
    }
}

/// The root of the subtree is red (an empty subtree is black).
pub open spec fn is_red_spec<K, V>(l: RBLink<K, V>) -> bool {
    l matches Some(n) && n.aux
}

/// The root of the subtree is red (an empty subtree is black).
fn is_red<K, V>(l: &RBLink<K, V>) -> (r: bool)
    ensures
        r == is_red_spec(*l),
{
    match l {
        Some(n) => n.aux,
        None => false,
    }
}

/// The node `n` coloured `c`.
fn paint<K: TreeKey, V>(n: Box<TreeNode<K, V, bool>>, c: bool) -> (r: Box<TreeNode<K, V, bool>>)
    ensures
        r.key == n.key,
        r.val == n.val,
        r.left == n.left,
        r.right == n.right,
        r.aux == c,
        r.node_map() == n.node_map(),
        r.node_ordered() == n.node_ordered(),
        r.node_size() == n.node_size(),
{
    let TreeNode { key, val, aux: _, left, right } = *n;
    Box::new(TreeNode { key, val, aux: c, left, right })
}

/// The subtree with its root coloured `c`.
fn paint_link<K: TreeKey, V>(l: RBLink<K, V>, c: bool) -> (r: RBLink<K, V>)
    ensures
        link_map(r) == link_map(l),
        link_ordered(r) == link_ordered(l),
        link_size(r) == link_size(l),
        r is Some <==> l is Some,
        r matches Some(n) ==> n.aux == c && n.left == l->0.left && n.right == l->0.right && n.key == l->0.key,
{
    match l {
        Some(n) => Some(paint(n, c)),
        None => None,
    }
}

/// `n` with its left child coloured `c`.
fn paint_left<K: TreeKey, V>(n: Box<TreeNode<K, V, bool>>, c: bool) -> (r: Box<TreeNode<K, V, bool>>)
    requires
        n.node_ordered(),
    ensures
        r.node_ordered(),
        r.node_map() == n.node_map(),
        r.node_size() == n.node_size(),
        r.key == n.key,
        r.aux == n.aux,
        r.right == n.right,
        r.left is Some <==> n.left is Some,
        r.left matches Some(l) ==> l.aux == c && l.left == n.left->0.left && l.right == n.left->0.right,
{
    let TreeNode { key, val, aux, left, right } = *n;
    let left = paint_link(left, c);
    Box::new(TreeNode { key, val, aux, left, right })
}

/// `n` with its right child coloured `c`.
fn paint_right<K: TreeKey, V>(n: Box<TreeNode<K, V, bool>>, c: bool) -> (r: Box<TreeNode<K, V, bool>>)
    requires
        n.node_ordered(),
    ensures
        r.node_ordered(),
        r.node_map() == n.node_map(),
        r.node_size() == n.node_size(),
        r.key == n.key,
        r.aux == n.aux,
        r.left == n.left,
        r.right is Some <==> n.right is Some,
        r.right matches Some(rr) ==> rr.aux == c && rr.left == n.right->0.left && rr.right == n.right->0.right,
{
    let TreeNode { key, val, aux, left, right } = *n;
    let right = paint_link(right, c);
    Box::new(TreeNode { key, val, aux, left, right })
}

/// `n` with its left subtree replaced by what `f` makes of it: the map and the
/// order stay when `f` keeps them.
fn set_left<K: TreeKey, V>(n: Box<TreeNode<K, V, bool>>, l: RBLink<K, V>) -> (r: Box<TreeNode<K, V, bool>>)
    requires
        n.node_ordered(),
        link_ordered(l),
        link_map(l) == link_map(n.left),
        link_size(l) == link_size(n.left),
    ensures
        r.node_ordered(),
        r.node_map() == n.node_map(),
        r.node_size() == n.node_size(),
        r.key == n.key,
        r.aux == n.aux,
        r.left == l,
        r.right == n.right,
{
    let TreeNode { key, val, aux, left: _, right } = *n;
    Box::new(TreeNode { key, val, aux, left: l, right })
}

/// `n` with its right subtree replaced by `l`, which holds the same map.
fn set_right<K: TreeKey, V>(n: Box<TreeNode<K, V, bool>>, l: RBLink<K, V>) -> (r: Box<TreeNode<K, V, bool>>)
    requires
        n.node_ordered(),
        link_ordered(l),
        link_map(l) == link_map(n.right),
        link_size(l) == link_size(n.right),
    ensures
        r.node_ordered(),
        r.node_map() == n.node_map(),
        r.node_size() == n.node_size(),
        r.key == n.key,
        r.aux == n.aux,
        r.left == n.left,
        r.right == l,
{
    let TreeNode { key, val, aux, left, right: _ } = *n;
    Box::new(TreeNode { key, val, aux, left, right: l })
}

/// `g` with its left child rotated left.
fn rotate_left_child<K: TreeKey, V>(g: Box<TreeNode<K, V, bool>>) -> (r: Box<TreeNode<K, V, bool>>)
    requires
        g.node_ordered(),
        g.left matches Some(p) && p.right is Some,
    ensures
        r.node_ordered(),
        r.node_map() == g.node_map(),
        r.node_size() == g.node_size(),
        r.key == g.key,
        r.aux == g.aux,
        r.right == g.right,
        r.left matches Some(p2) && p2.key == g.left->0.right->0.key && p2.aux == g.left->0.right->0.aux
            && p2.right == g.left->0.right->0.right && (p2.left matches Some(nx) && nx.key == g.left->0.key
            && nx.aux == g.left->0.aux && nx.right == g.left->0.right->0.left && nx.left == g.left->0.left),
{
    let ghost gg = *g;
    let TreeNode { key, val, aux, left, right } = *g;
    match left {
        Some(p) => {
            proof {
                assert(link_ordered(gg.left));
            }
            let p2 = rotate_left(p);
            let r = Box::new(TreeNode { key, val, aux, left: Some(p2), right });
            proof {
                assert(link_map(r.left) == link_map(gg.left));
            }
            r
        },
        None => {
            proof {
                assert(false);
            }
            Box::new(TreeNode { key, val, aux, left: None, right })
        },
    }
}

/// `g` with its right child rotated right.
fn rotate_right_child<K: TreeKey, V>(g: Box<TreeNode<K, V, bool>>) -> (r: Box<TreeNode<K, V, bool>>)
    requires
        g.node_ordered(),
        g.right matches Some(p) && p.left is Some,
    ensures
        r.node_ordered(),
        r.node_map() == g.node_map(),
        r.node_size() == g.node_size(),
        r.key == g.key,
        r.aux == g.aux,
        r.left == g.left,
        r.right matches Some(p2) && p2.key == g.right->0.left->0.key && p2.aux == g.right->0.left->0.aux
            && p2.left == g.right->0.left->0.left && (p2.right matches Some(nx) && nx.key == g.right->0.key
            && nx.aux == g.right->0.aux && nx.left == g.right->0.left->0.right && nx.right == g.right->0.right),
{
    let ghost gg = *g;
    let TreeNode { key, val, aux, left, right } = *g;
    match right {
        Some(p) => {
            proof {
                assert(link_ordered(gg.right));
            }
            let p2 = rotate_right(p);
            let r = Box::new(TreeNode { key, val, aux, left, right: Some(p2) });
            proof {
                assert(link_map(r.right) == link_map(gg.right));
            }
            r
        },
        None => {
            proof {
                assert(false);
            }
            Box::new(TreeNode { key, val, aux, left, right: None })
        },
    }
}

/// A subtree that keeps the colour rules below its root keeps them everywhere
/// unless its root is red with a red child.
proof fn lemma_almost_balanced<K, V>(l: RBLink<K, V>)
    requires
        rb_almost(l),
        l matches Some(n) ==> !(n.aux && (is_red_spec(n.left) || is_red_spec(n.right))),
    ensures
        rb_balanced(l),
{
}

/// Painting the root of a subtree black that keeps the colour rules below its
/// root makes it keep them everywhere, one black node higher where the root was red.
proof fn lemma_paint_black<K, V>(l: RBLink<K, V>, m: RBLink<K, V>)
    requires
        rb_almost(l),
        l matches Some(n) && m matches Some(c) && c.left == n.left && c.right == n.right && !c.aux,
    ensures
        rb_balanced(m),
        black_height(m) == black_height(l->0.left) + 1,
{
}

/// A subtree that keeps the colour rules keeps them below its root.
proof fn lemma_balanced_almost<K, V>(l: RBLink<K, V>)
    requires
        rb_balanced(l),
    ensures
        rb_almost(l),
{
}

/// A red node whose two subtrees keep the colour rules, have black roots and
/// equal black heights keeps them, with their black height.
proof fn lemma_red_over<K, V>(x: RBLink<K, V>)
    requires
        x matches Some(n) && n.aux && rb_balanced(n.left) && rb_balanced(n.right) && !is_red_spec(n.left)
            && !is_red_spec(n.right) && black_height(n.left) == black_height(n.right),
    ensures
        rb_balanced(x),
        black_height(x) == black_height(x->0.left),
{
}

/// A black node whose two subtrees keep the colour rules and have equal black
/// heights keeps them, one black node higher.
proof fn lemma_black_over<K, V>(x: RBLink<K, V>)
    requires
        x matches Some(n) && !n.aux && rb_balanced(n.left) && rb_balanced(n.right)
            && black_height(n.left) == black_height(n.right),
    ensures
        rb_balanced(x),
        black_height(x) == black_height(x->0.left) + 1,
{
}

/// Repairs a red left child of `g` that has a red child: where the sibling of that
/// child is red, the three are recoloured (`g` red, its children black); where it
/// is black, one or two rotations bring the middle key on top, black, with `g`
/// red below it. A red `g` is left for its own parent to repair.
fn insert_fix_left<K: TreeKey, V>(g: Box<TreeNode<K, V, bool>>) -> (r: Box<TreeNode<K, V, bool>>)
    requires
        g.node_ordered(),
        rb_almost(g.left),
        rb_balanced(g.right),
        black_height(g.left) == black_height(g.right),
        g.aux ==> rb_balanced(g.left) && !is_red_spec(g.right),
    ensures
        r.node_ordered(),
        r.node_map() == g.node_map(),
        r.node_size() == g.node_size(),
        rb_almost(Some(r)),
        black_height(Some(r)) == black_height(Some(g)),
        !g.aux ==> rb_balanced(Some(r)),
{
    if g.aux || !is_red(&g.left) {
        proof {
            lemma_almost_balanced(g.left);
        }
        return g;
    }
    let (inner_left, inner_right) = match &g.left {
        Some(p) => (is_red(&p.left), is_red(&p.right)),
        None => (false, false),
    };
    if !inner_left && !inner_right {
        proof {
            lemma_almost_balanced(g.left);
        }
        return g;
    }
    if is_red(&g.right) {
        let ghost g0 = *g;
        let g = paint_left(g, false);
        let g = paint_right(g, false);
        proof {
            lemma_paint_black(g0.left, g.left);
            lemma_paint_black(g0.right, g.right);
        }
        return paint(g, true);
    }
    let ghost g0 = *g;
    let ghost p0 = *g0.left->0;
    let g = if inner_right { rotate_left_child(g) } else { g };
    let r = rotate_right(g);
    let r = paint(r, false);
    let r = paint_right(r, true);
    proof {
        assert(black_height(Some(Box::new(g0))) == black_height(g0.left) + 1);
        if inner_right {
            let b = *p0.right->0;
            lemma_red_over(r.left);
            lemma_red_over(r.right);
            assert(black_height(b.left) == black_height(p0.right));
        } else {
            lemma_red_over(r.right);
        }
        lemma_black_over(Some(r));
    }
    r
}

/// The mirror image of `insert_fix_left`, for a red right child.
fn insert_fix_right<K: TreeKey, V>(g: Box<TreeNode<K, V, bool>>) -> (r: Box<TreeNode<K, V, bool>>)
    requires
        g.node_ordered(),
        rb_almost(g.right),
        rb_balanced(g.left),
        black_height(g.left) == black_height(g.right),
        g.aux ==> rb_balanced(g.right) && !is_red_spec(g.left),
    ensures
        r.node_ordered(),
        r.node_map() == g.node_map(),
        r.node_size() == g.node_size(),
        rb_almost(Some(r)),
        black_height(Some(r)) == black_height(Some(g)),
        !g.aux ==> rb_balanced(Some(r)),
{
    if g.aux || !is_red(&g.right) {
        proof {
            lemma_almost_balanced(g.right);
        }
        return g;
    }
    let (inner_left, inner_right) = match &g.right {
        Some(p) => (is_red(&p.left), is_red(&p.right)),
        None => (false, false),
    };
    if !inner_left && !inner_right {
        proof {
            lemma_almost_balanced(g.right);
        }
        return g;
    }
    if is_red(&g.left) {
        let ghost g0 = *g;
        let g = paint_left(g, false);
        let g = paint_right(g, false);
        proof {
            lemma_paint_black(g0.left, g.left);
            lemma_paint_black(g0.right, g.right);
        }
        return paint(g, true);
    }
    let ghost g0 = *g;
    let ghost p0 = *g0.right->0;
    let g = if inner_left { rotate_right_child(g) } else { g };
    let r = rotate_left(g);
    let r = paint(r, false);
    let r = paint_left(r, true);
    proof {
        assert(black_height(Some(Box::new(g0))) == black_height(g0.left) + 1);
        if inner_left {
            let b = *p0.left->0;
            lemma_red_over(r.left);
            lemma_red_over(r.right);
            assert(black_height(b.left) == black_height(p0.left));
        } else {
            lemma_red_over(r.left);
        }
        lemma_black_over(Some(r));
    }
    r
}

/// Maps `k` to `v` below `link`, a new key going in as a red leaf, and repairs the
/// colours on the way back up; gives back the value `k` had.
fn insert_link<K: TreeKey, V>(link: RBLink<K, V>, k: K, v: V) -> (r: (Box<TreeNode<K, V, bool>>, Option<V>))
    requires
        link_ordered(link),
        rb_balanced(link),
    ensures
        rb_almost(Some(r.0)),
        black_height(Some(r.0)) == black_height(link),
        !is_red_spec(link) ==> rb_balanced(Some(r.0)),
        r.0.node_ordered(),
        r.0.node_map() == link_map(link).insert(k, v),
        r.1 == (if link_map(link).dom().contains(k) { Some(link_map(link)[k]) } else { None }),
    decreases link,
{
    match link {
        None => (Box::new(TreeNode::leaf(k, v, true)), None),
        Some(node) => {
            let ghost old_node = *node;
            proof {
                lemma_node_lookup(old_node, k);
            }
            let TreeNode { key, val, aux, left, right } = *node;
            match k.compare(&key) {
                KeyOrder::Equal => {
                    proof {
                        K::lemma_rank_injective(k, key);
                    }
                    let n = Box::new(TreeNode { key, val: v, aux, left, right });
                    proof {
                        assert(n.node_map() =~= old_node.node_map().insert(k, v));
                    }
                    (n, Some(val))
                },
                KeyOrder::Less => {
                    let (nl, popped) = insert_link(left, k, v);
                    let n = Box::new(TreeNode { key, val, aux, left: Some(nl), right });
                    proof {
                        assert(link_map(n.left) == nl.node_map());
                        assert(all_below(n.left, key.rank()));
                        lemma_insert_below(link_map(left), link_map(right), key, val, k, v, true);
                    }
                    (insert_fix_left(n), popped)
                },
                KeyOrder::Greater => {
                    let (nr, popped) = insert_link(right, k, v);
                    let n = Box::new(TreeNode { key, val, aux, left, right: Some(nr) });
                    proof {
                        assert(link_map(n.right) == nr.node_map());
                        assert(all_above(n.right, key.rank()));
                        lemma_insert_below(link_map(left), link_map(right), key, val, k, v, false);
                    }
                    (insert_fix_right(n), popped)
                },
            }
        },
    }
}

/// After a removal took one black node off the paths through the left subtree of
/// `p`, restores their count where the cases allow; tells whether the paths
/// through `p` are still one black node short. A red sibling is first rotated
/// above `p`; a black sibling with black children turns red, passing the
/// shortness up (or ending it at a red `p`, made black); otherwise one or two
/// rotations move a black node over to the short side.
fn remove_fix_left<K: TreeKey, V>(p: Box<TreeNode<K, V, bool>>) -> (r: (Box<TreeNode<K, V, bool>>, bool))
    requires
        p.node_ordered(),
        rb_balanced(p.left),
        rb_balanced(p.right),
        black_height(p.left) + 1 == black_height(p.right),
        !is_red_spec(p.left),
        p.aux ==> !is_red_spec(p.right),
    ensures
        r.0.node_ordered(),
        r.0.node_map() == p.node_map(),
        r.0.node_size() == p.node_size(),
        rb_balanced(Some(r.0)),
        black_height(Some(r.0)) + (if r.1 { 1int } else { 0int }) == black_height(p.right) + (if p.aux { 0int } else { 1int }),
        r.1 ==> !r.0.aux,
        r.0.aux ==> p.aux,
        p.aux ==> !r.1,
    decreases p.node_size(),
{
    if p.right.is_none() {
        return (p, true);
    }
    if is_red(&p.right) {
        let p = paint_right(p, false);
        let p = paint(p, true);
        let r = rotate_left(p);
        let ghost rg = *r;
        let TreeNode { key, val, aux, left, right } = *r;
        match left {
            Some(lft) => {
                proof {
                    assert(link_ordered(rg.left));
                    assert(link_size(rg.left) == lft.node_size());
                }
                let (nl, short) = remove_fix_left(lft);
                let r2 = Box::new(TreeNode { key, val, aux, left: Some(nl), right });
                proof {
                    assert(link_map(r2.left) == link_map(rg.left));
                }
                return (r2, short);
            },
            None => {
                proof {
                    assert(false);
                }
                return (Box::new(TreeNode { key, val, aux, left: None, right }), true);
            },
        }
    }
    let (near_red, far_red) = match &p.right {
        Some(s) => (is_red(&s.left), is_red(&s.right)),
        None => (false, false),
    };
    if !near_red && !far_red {
        let p = paint_right(p, true);
        proof {
            lemma_red_over(p.right);
        }
        if p.aux {
            let p = paint(p, false);
            proof {
                lemma_black_over(Some(p));
            }
            return (p, false);
        }
        proof {
            lemma_black_over(Some(p));
        }
        return (p, true);
    }
    let ghost q0 = *p;
    let p = if !far_red {
        // the near red child goes up over the sibling, black, the sibling red below it
        let ghost pg = *p;
        let TreeNode { key, val, aux, left, right } = *p;
        match right {
            Some(sib) => {
                proof {
                    assert(link_ordered(pg.right));
                }
                let ghost s0 = *sib;
                let sib = paint(sib, true);
                let sib = paint_left(sib, false);
                let sib = rotate_right(sib);
                let np = Box::new(TreeNode { key, val, aux, left, right: Some(sib) });
                proof {
                    assert(link_map(np.right) == link_map(pg.right));
                    let sl = *s0.left->0;
                    assert(rb_balanced(Some(Box::new(s0))));
                    assert(rb_balanced(s0.left));
                    assert(rb_balanced(sl.left) && rb_balanced(sl.right) && !is_red_spec(sl.right));
                    assert(black_height(s0.left) == black_height(sl.left));
                    lemma_red_over(sib.right);
                    lemma_black_over(Some(sib));
                }
                np
            },
            None => {
                proof {
                    assert(false);
                }
                Box::new(TreeNode { key, val, aux, left, right: None })
            },
        }
    } else {
        p
    };
    // the sibling goes up in the colour of `p`; `p` and the far child turn black
    let ghost q1 = *p;
    proof {
        assert(black_height(q0.right) == black_height(q0.right->0.left) + 1);
        assert(black_height(q1.right) == black_height(q1.right->0.left) + 1);
    }
    let c = p.aux;
    let r = rotate_left(p);
    let r = paint(r, c);
    let r = paint_left(r, false);
    let r = paint_right(r, false);
    proof {
        let f = q1.right->0.right;
        assert(rb_balanced(q1.right));
        assert(rb_balanced(f));
        lemma_balanced_almost(f);
        lemma_black_over(r.left);
        lemma_paint_black(f, r.right);
        if c {
            lemma_red_over(Some(r));
        } else {
            lemma_black_over(Some(r));
        }
    }
    (r, false)
}

/// The mirror image of `remove_fix_left`, for paths through the right subtree.
fn remove_fix_right<K: TreeKey, V>(p: Box<TreeNode<K, V, bool>>) -> (r: (Box<TreeNode<K, V, bool>>, bool))
    requires
        p.node_ordered(),
        rb_balanced(p.left),
        rb_balanced(p.right),
        black_height(p.right) + 1 == black_height(p.left),
        !is_red_spec(p.right),
        p.aux ==> !is_red_spec(p.left),
    ensures
        r.0.node_ordered(),
        r.0.node_map() == p.node_map(),
        r.0.node_size() == p.node_size(),
        rb_balanced(Some(r.0)),
        black_height(Some(r.0)) + (if r.1 { 1int } else { 0int }) == black_height(p.left) + (if p.aux { 0int } else { 1int }),
        r.1 ==> !r.0.aux,
        r.0.aux ==> p.aux,
        p.aux ==> !r.1,
    decreases p.node_size(),
{
    if p.left.is_none() {
        return (p, true);
    }
    if is_red(&p.left) {
        let p = paint_left(p, false);
        let p = paint(p, true);
        let r = rotate_right(p);
        let ghost rg = *r;
        let TreeNode { key, val, aux, left, right } = *r;
        match right {
            Some(rgt) => {
                proof {
                    assert(link_ordered(rg.right));
                    assert(link_size(rg.right) == rgt.node_size());
                }
                let (nr, short) = remove_fix_right(rgt);
                let r2 = Box::new(TreeNode { key, val, aux, left, right: Some(nr) });
                proof {
                    assert(link_map(r2.right) == link_map(rg.right));
                }
                return (r2, short);
            },
            None => {
                proof {
                    assert(false);
                }
                return (Box::new(TreeNode { key, val, aux, left, right: None }), true);
            },
        }
    }
    let (far_red, near_red) = match &p.left {
        Some(s) => (is_red(&s.left), is_red(&s.right)),
        None => (false, false),
    };
    if !near_red && !far_red {
        let p = paint_left(p, true);
        proof {
            lemma_red_over(p.left);
        }
        if p.aux {
            let p = paint(p, false);
            proof {
                lemma_black_over(Some(p));
            }
            return (p, false);
        }
        proof {
            lemma_black_over(Some(p));
        }
        return (p, true);
    }
    let ghost q0 = *p;
    let p = if !far_red {
        let ghost pg = *p;
        let TreeNode { key, val, aux, left, right } = *p;
        match left {
            Some(sib) => {
                proof {
                    assert(link_ordered(pg.left));
                }
                let ghost s0 = *sib;
                let sib = paint(sib, true);
                let sib = paint_right(sib, false);
                let sib = rotate_left(sib);
                let np = Box::new(TreeNode { key, val, aux, left: Some(sib), right });
                proof {
                    assert(link_map(np.left) == link_map(pg.left));
                    let sr = *s0.right->0;
                    assert(rb_balanced(Some(Box::new(s0))));
                    assert(rb_balanced(s0.right));
                    assert(rb_balanced(sr.left) && rb_balanced(sr.right) && !is_red_spec(sr.left));
                    assert(black_height(s0.right) == black_height(sr.left));
                    lemma_red_over(sib.left);
                    lemma_black_over(Some(sib));
                }
                np
            },
            None => {
                proof {
                    assert(false);
                }
                Box::new(TreeNode { key, val, aux, left: None, right })
            },
        }
    } else {
        p
    };
    let ghost q1 = *p;
    proof {
        assert(black_height(q0.left) == black_height(q0.left->0.left) + 1);
        assert(black_height(q1.left) == black_height(q1.left->0.left) + 1);
    }
    let c = p.aux;
    let r = rotate_right(p);
    let r = paint(r, c);
    let r = paint_left(r, false);
    let r = paint_right(r, false);
    proof {
        let f = q1.left->0.left;
        assert(rb_balanced(q1.left));
        assert(rb_balanced(f));
        lemma_balanced_almost(f);
        lemma_black_over(r.right);
        lemma_paint_black(f, r.left);
        if c {
            lemma_red_over(Some(r));
        } else {
            lemma_black_over(Some(r));
        }
    }
    (r, false)
}

/// The child that takes the place of a removed node of colour `red`: a red child
/// of a black node turns black and the paths keep their count; otherwise the
/// paths are one black node short exactly when the removed node was black.
fn splice<K: TreeKey, V>(child: RBLink<K, V>, red: bool) -> (r: (RBLink<K, V>, bool))
    requires
        link_ordered(child),
        rb_balanced(child),
        red ==> !is_red_spec(child),
    ensures
        link_ordered(r.0),
        link_map(r.0) == link_map(child),
        link_size(r.0) == link_size(child),
        rb_balanced(r.0),
        black_height(r.0) + (if r.1 { 1int } else { 0int }) == black_height(child) + (if red { 0int } else { 1int }),
        !is_red_spec(r.0),
{
    if red {
        (child, false)
    } else if is_red(&child) {
        (paint_link(child, false), false)
    } else {
        (child, true)
    }
}

/// Takes the entry of least key out of the subtree rooted at `n`, repairing the
/// colours on the way back up; tells whether the subtree's paths are one black
/// node short.
fn remove_min<K: TreeKey, V>(n: Box<TreeNode<K, V, bool>>) -> (r: (RBLink<K, V>, K, V, bool))
    requires
        n.node_ordered(),
        rb_balanced(Some(n)),
    ensures
        rb_balanced(r.0),
        black_height(r.0) + (if r.3 { 1int } else { 0int }) == black_height(Some(n)),
        r.3 ==> !is_red_spec(r.0),
        is_red_spec(r.0) ==> n.aux,
        link_ordered(r.0),
        n.node_map().dom().contains(r.1),
        n.node_map()[r.1] == r.2,
        link_map(r.0) == n.node_map().remove(r.1),
        forall|q: K| #[trigger] link_map(r.0).dom().contains(q) ==> q.rank() > r.1.rank(),
    decreases n,
{
    let ghost old_node = *n;
    proof {
        lemma_node_lookup(old_node, old_node.key);
    }
    let TreeNode { key, val, aux, left, right } = *n;
    match left {
        None => {
            proof {
                assert(link_map(right) =~= old_node.node_map().remove(key));
            }
            let (nr, short) = splice(right, aux);
            (nr, key, val, short)
        },
        Some(l) => {
            let ghost lg = *l;
            proof {
                assert(link_map(old_node.left) == lg.node_map());
            }
            let (nl, mk, mv, short) = remove_min(l);
            proof {
                lemma_node_lookup(old_node, mk);
                assert forall|q: K| #[trigger] link_map(nl).dom().contains(q) implies q.rank() < key.rank() by {
                    assert(lg.node_map().dom().contains(q));
                }
            }
            let m = Box::new(TreeNode { key, val, aux, left: nl, right });
            proof {
                assert(mk.rank() < key.rank());
                lemma_remove_below(link_map(old_node.left), link_map(right), key, val, mk, true);
                assert forall|q: K| #[trigger] m.node_map().dom().contains(q) implies q.rank() > mk.rank() by {
                    if q != key && !link_map(nl).dom().contains(q) {
                        assert(link_map(right).dom().contains(q));
                    }
                }
            }
            if short {
                let (m2, short2) = remove_fix_left(m);
                (Some(m2), mk, mv, short2)
            } else {
                (Some(m), mk, mv, false)
            }
        },
    }
}

/// Removes `k` from below `link`, putting the least entry of the right side in
/// the place of a node with two children and repairing the colours on the way
/// back up; gives back the value of `k`, and whether the paths are one black node
/// short.
fn remove_link<K: TreeKey, V>(link: RBLink<K, V>, k: &K) -> (r: (RBLink<K, V>, Option<V>, bool))
    requires
        link_ordered(link),
        rb_balanced(link),
    ensures
        rb_balanced(r.0),
        black_height(r.0) + (if r.2 { 1int } else { 0int }) == black_height(link),
        r.2 ==> !is_red_spec(r.0),
        is_red_spec(r.0) ==> is_red_spec(link),
        link_ordered(r.0),
        link_map(r.0) == link_map(link).remove(*k),
        r.1 == (if link_map(link).dom().contains(*k) { Some(link_map(link)[*k]) } else { None }),
    decreases link,
{
    match link {
        None => {
            proof {
                assert(link_map(link).remove(*k) =~= link_map(link));
            }
            (None, None, false)
        },
        Some(node) => {
            let ghost old_node = *node;
            proof {
                lemma_node_lookup(old_node, *k);
            }
            let TreeNode { key, val, aux, left, right } = *node;
            match k.compare(&key) {
                KeyOrder::Equal => {
                    proof {
                        K::lemma_rank_injective(*k, key);
                    }
                    match right {
                        None => {
                            proof {
                                assert(link_map(left) =~= old_node.node_map().remove(*k));
                            }
                            let (nl, short) = splice(left, aux);
                            (nl, Some(val), short)
                        },
                        Some(rn) => {
                            if left.is_none() {
                                proof {
                                    assert(link_map(Some(rn)) =~= old_node.node_map().remove(*k));
                                }
                                let (nr, short) = splice(Some(rn), aux);
                                (nr, Some(val), short)
                            } else {
                                let ghost rg = *rn;
                                proof {
                                    assert(old_node.right == Some(Box::new(rg)));
                                    assert(link_ordered(old_node.right));
                                    assert(rg.node_ordered());
                                    assert(link_map(old_node.right) == rg.node_map());
                                }
                                let (nr, sk, sv, short) = remove_min(rn);
                                proof {
                                    lemma_node_lookup(old_node, sk);
                                    assert forall|q: K| #[trigger] link_map(left).dom().contains(q) implies q.rank() < sk.rank() by {
                                    }
                                }
                                let m = Box::new(TreeNode { key: sk, val: sv, aux, left, right: nr });
                                proof {
                                    assert forall|q: K| #[trigger] link_map(nr).dom().contains(q) implies link_map(old_node.right).dom().contains(q) by {
                                        assert(rg.node_map().dom().contains(q));
                                    }
                                    lemma_remove_root(link_map(left), rg.node_map(), key, val, sk, sv);
                                }
                                if short {
                                    let (m2, short2) = remove_fix_right(m);
                                    (Some(m2), Some(val), short2)
                                } else {
                                    (Some(m), Some(val), false)
                                }
                            }
                        },
                    }
                },
                KeyOrder::Less => {
                    let (nl, popped, short) = remove_link(left, k);
                    let m = Box::new(TreeNode { key, val, aux, left: nl, right });
                    proof {
                        assert forall|q: K| #[trigger] link_map(nl).dom().contains(q) implies q.rank() < key.rank() by {
                            assert(link_map(old_node.left).dom().contains(q));
                        }
                        lemma_remove_below(link_map(left), link_map(right), key, val, *k, true);
                    }
                    if short {
                        let (m2, short2) = remove_fix_left(m);
                        (Some(m2), popped, short2)
                    } else {
                        (Some(m), popped, false)
                    }
                },
                KeyOrder::Greater => {
                    let (nr, popped, short) = remove_link(right, k);
                    let m = Box::new(TreeNode { key, val, aux, left, right: nr });
                    proof {
                        assert forall|q: K| #[trigger] link_map(nr).dom().contains(q) implies q.rank() > key.rank() by {
                            assert(link_map(old_node.right).dom().contains(q));
                        }
                        lemma_remove_below(link_map(left), link_map(right), key, val, *k, false);
                    }
                    if short {
                        let (m2, short2) = remove_fix_right(m);
                        (Some(m2), popped, short2)
                    } else {
                        (Some(m), popped, false)
                    }
                },
            }
        },
    }
}

/// The black height of `l` where `l` keeps both colour rules, `None` where it
/// breaks one (or where the height does not fit in a `u64`).
fn check_balance<K, V>(l: &RBLink<K, V>) -> (r: Option<u64>)
    ensures
        r matches Some(h) ==> rb_balanced(*l) && h == black_height(*l),
        rb_balanced(*l) && black_height(*l) <= u64::MAX ==> r == Some(black_height(*l) as u64),
    decreases l,
{
    match l {
        None => Some(0),
        Some(n) => {
            let hl = check_balance(&n.left);
            let hr = check_balance(&n.right);
            match (hl, hr) {
                (Some(a), Some(b)) => {
                    if a != b {
                        return None;
                    }
                    if n.aux && (is_red(&n.left) || is_red(&n.right)) {
                        return None;
                    }
                    if n.aux {
                        Some(a)
                    } else if a < u64::MAX {
                        Some(a + 1)
                    } else {
                        None
                    }
                },
                _ => None,
            }
        },
    }
}

/// An ordered map kept as a red-black tree.
pub struct RB<K: TreeKey, V> {
    root: RBLink<K, V>,
}

impl<K: TreeKey, V> RB<K, V> {
    #[verifier::type_invariant]
    spec fn well_formed(self) -> bool {
        link_ordered(self.root) && rb_balanced(self.root) && !is_red_spec(self.root)
    }

    /// The map the tree holds.
    pub closed spec fn map(self) -> Map<K, V> {
        link_map(self.root)
    }

    /// The tree keeps both colour rules.
    pub closed spec fn balanced(self) -> bool {
        rb_balanced(self.root)
    }

    /// The root is black (an empty tree counts as black).
    pub closed spec fn root_black(self) -> bool {
        !is_red_spec(self.root)
    }

    /// The number of black nodes on every path down from the root.
    pub closed spec fn black_depth(self) -> nat {
        black_height(self.root)
    }
}

impl<K: TreeKey, V> View for RB<K, V> {
    type V = Map<K, V>;

    open spec fn view(&self) -> Map<K, V> {
        self.map()
    }
}

impl<K: TreeKey, V> RB<K, V> {
    /// The empty map.
    pub fn new() -> (r: Self)
        ensures
            r@ == Map::<K, V>::empty(),
            r.balanced(),
            r.root_black(),
    {
        RB { root: None }
    }

    /// The value held for `k`, if any.
    pub fn get(&self, k: &K) -> (r: Option<&V>)
        ensures
            r == (if self@.dom().contains(*k) { Some(&self@[*k]) } else { None }),
    {
        proof {
            use_type_invariant(self);
        }
        link_get(&self.root, k)
    }

    /// Maps `k` to `v`; gives back the value `k` had, if any. The root is painted
    /// black.
    pub fn insert(&mut self, k: K, v: V) -> (r: Option<V>)
        ensures
            final(self)@ == old(self)@.insert(k, v),
            final(self).balanced(),
            final(self).root_black(),
            r == (if old(self)@.dom().contains(k) { Some(old(self)@[k]) } else { None }),
    {
        proof {
            use_type_invariant(&*self);
        }
        let mut root = None;
        std::mem::swap(&mut root, &mut self.root);
        let (n, popped) = insert_link(root, k, v);
        self.root = Some(paint(n, false));
        popped
    }

    /// Removes `k`; gives back its value, if it had one. The root is painted black.
    pub fn remove(&mut self, k: &K) -> (r: Option<V>)
        ensures
            final(self)@ == old(self)@.remove(*k),
            final(self).balanced(),
            final(self).root_black(),
            r == (if old(self)@.dom().contains(*k) { Some(old(self)@[*k]) } else { None }),
    {
        proof {
            use_type_invariant(&*self);
        }
        let mut root = None;
        std::mem::swap(&mut root, &mut self.root);
        let (n, popped, _short) = remove_link(root, k);
        self.root = paint_link(n, false);
        popped
    }

    /// Whether no red node has a red child and every path down from each node
    /// meets the same number of black nodes.
    pub fn balance_validation(&self) -> (r: bool)
        ensures
            r ==> self.balanced(),
            self.balanced() && self.black_depth() <= u64::MAX ==> r,
            self.balanced(),
    {
        proof {
            use_type_invariant(self);
        }
        check_balance(&self.root).is_some()
    }
}

} // verus!

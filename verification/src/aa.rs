//! AA trees: search trees balanced by a level at each node, restored after each
//! change by the two rotations `skew` and `split`.

use vstd::prelude::*;
use crate::tree::{
    rotl, rotr, TreeKey, KeyOrder, TreeNode, link_map, link_ordered, link_get, rotate_left, rotate_right,
    lemma_node_lookup, lemma_insert_below, lemma_remove_below, lemma_remove_root, all_below, all_above,
};

verus! {

/// A node of an AA tree; its balancing data is its level.
pub type AANode<K, V> = TreeNode<K, V, usize>;

/// A subtree of an AA tree.
pub type AALink<K, V> = Option<Box<AANode<K, V>>>;

impl<K, V> AANode<K, V> {
    /// A node of level one holding `key -> value`.
    pub fn new(key: K, value: V) -> (r: Self)
        ensures
            r.key == key,
            r.val == value,
            r.aux == 1,
            r.left is None,
            r.right is None,
    {
        TreeNode::leaf(key, value, 1)
    }
}

/// The level of the root of a subtree, 0 for the empty one.
pub open spec fn level_of<K, V>(l: AALink<K, V>) -> usize {
    match l {
        None => 0,
        Some(n) => n.aux,
    }
}

/// One more than `a`, staying at `usize::MAX`.
pub open spec fn level_up(a: usize) -> usize {
    if a < usize::MAX { (a + 1) as usize } else { a }
}

/// `t` rotated right where its left child has its level.
pub open spec fn skewed<K, V>(t: AALink<K, V>) -> AALink<K, V> {
    match t {
        None => None,
        Some(n) => if n.left is Some && level_of(n.left) == n.aux { Some(Box::new(rotr(*n))) } else { t },
    }
}

/// `t` rotated left, the new root one level up, where its right grandchild on
/// the right has its level.
pub open spec fn splitted<K, V>(t: AALink<K, V>) -> AALink<K, V> {
    match t {
        None => None,
        Some(n) => if (n.right matches Some(rn) && rn.right is Some && level_of(rn.right) == n.aux) {
            let m = rotl(*n);
            Some(Box::new(TreeNode { key: m.key, val: m.val, aux: level_up(m.aux), left: m.left, right: m.right }))
        } else {
            t
        },
    }
}

/// `n` with its right subtree skewed.
pub open spec fn skewed_right<K, V>(n: AANode<K, V>) -> AANode<K, V> {
    TreeNode { key: n.key, val: n.val, aux: n.aux, left: n.left, right: skewed(n.right) }
}

/// `n` with its right subtree split.
pub open spec fn splitted_right<K, V>(n: AANode<K, V>) -> AANode<K, V> {
    TreeNode { key: n.key, val: n.val, aux: n.aux, left: n.left, right: splitted(n.right) }
}

/// `n` with its level, and that of a right child above it, lowered to one above
/// the lower of its children where that is below its level.
pub open spec fn lowered<K, V>(n: AANode<K, V>) -> AANode<K, V> {
    let ll = level_of(n.left);
    let lr = level_of(n.right);
    let lv = level_up(if ll < lr { ll } else { lr });
    if lv < n.aux {
        let right2 = if lv < lr {
            match n.right {
                Some(rn) => Some(Box::new(TreeNode { key: rn.key, val: rn.val, aux: lv, left: rn.left, right: rn.right })),
                None => None,
            }
        } else {
            n.right
        };
        TreeNode { key: n.key, val: n.val, aux: lv, left: n.left, right: right2 }
    } else {
        n
    }
}

/// `t` after a removal below it: its level lowered, then skewed at the root, at
/// its right child and at its right grandchild on the right, then split at the
/// root and at its right child.
pub open spec fn fixed_after_remove<K, V>(t: AANode<K, V>) -> AANode<K, V> {
    let t1 = *skewed(Some(Box::new(lowered(t))))->0;
    let t2 = skewed_right(t1);
    let t3 = TreeNode {
        key: t2.key,
        val: t2.val,
        aux: t2.aux,
        left: t2.left,
        right: match t2.right {
            Some(rn) => Some(Box::new(skewed_right(*rn))),
            None => None,
        },
    };
    splitted_right(*splitted(Some(Box::new(t3)))->0)
}

/// The AA rules: a node's level is one above its left child's (so a node
/// without a left child has level one), its right child is at its level or one
/// below, and its right grandchild on the right is below its level.
pub open spec fn aa_valid<K, V>(l: AALink<K, V>) -> bool
    decreases l,
{
    match l {
        None => true,
        Some(n) => {
            &&& aa_valid(n.left)
            &&& aa_valid(n.right)
            &&& n.aux >= 1
            &&& level_of(n.left) + 1 == n.aux
            &&& (level_of(n.right) == n.aux || level_of(n.right) + 1 == n.aux)
            &&& (n.right matches Some(rn) ==> level_of(rn.right) < n.aux)
        },
    }
}

/// What inserting below `t` may give back: a tree that keeps the AA rules, at
/// the level of `t` or one above; one above only where its right child is
/// below it and `t` was empty or had its right child at its own level.
pub open spec fn aa_grown<K, V>(t: AALink<K, V>, r: AANode<K, V>) -> bool {
    &&& aa_valid(Some(Box::new(r)))
    &&& (r.aux == level_of(t) || (r.aux == level_of(t) + 1 && level_of(r.right) < r.aux
        && (t matches Some(tn) ==> level_of(tn.right) == tn.aux)))
}

/// Putting back at `n` a left subtree grown by an insertion and then skewing and
/// splitting gives a tree grown from `n`.
proof fn lemma_aa_insert_left<K, V>(n: AANode<K, V>, c: AANode<K, V>)
    requires
        aa_valid(Some(Box::new(n))),
        aa_grown(n.left, c),
        n.aux < usize::MAX - 1,
    ensures
        ({
            let m = TreeNode { key: n.key, val: n.val, aux: n.aux, left: Some(Box::new(c)), right: n.right };
            let r = splitted(skewed(Some(Box::new(m))));
            r is Some && aa_grown(Some(Box::new(n)), *r->0)
        }),
{
    let l = n.aux;
    let m = TreeNode { key: n.key, val: n.val, aux: n.aux, left: Some(Box::new(c)), right: n.right };
    if c.aux + 1 == l {
        assert(aa_valid(Some(Box::new(m))));
        assert(skewed(Some(Box::new(m))) == Some(Box::new(m)));
        assert(splitted(Some(Box::new(m))) == Some(Box::new(m)));
    } else {
        assert(c.aux == l);
        assert(aa_valid(c.left) && aa_valid(c.right));
        let y = TreeNode { key: n.key, val: n.val, aux: l, left: c.right, right: n.right };
        assert(aa_valid(Some(Box::new(y))));
        let x = TreeNode { key: c.key, val: c.val, aux: l, left: c.left, right: Some(Box::new(y)) };
        assert(skewed(Some(Box::new(m))) == Some(Box::new(x)));
        if level_of(n.right) == l {
            let w = TreeNode { key: c.key, val: c.val, aux: l, left: c.left, right: c.right };
            assert(aa_valid(Some(Box::new(w))));
            let z = TreeNode { key: n.key, val: n.val, aux: (l + 1) as usize, left: Some(Box::new(w)), right: n.right };
            assert(aa_valid(Some(Box::new(z))));
            assert(splitted(Some(Box::new(x))) == Some(Box::new(z)));
        } else {
            assert(aa_valid(Some(Box::new(x))));
            assert(splitted(Some(Box::new(x))) == Some(Box::new(x)));
        }
    }
}

/// Putting back at `n` a right subtree grown by an insertion and then skewing
/// and splitting gives a tree grown from `n`.
proof fn lemma_aa_insert_right<K, V>(n: AANode<K, V>, c: AANode<K, V>)
    requires
        aa_valid(Some(Box::new(n))),
        aa_grown(n.right, c),
        n.aux < usize::MAX - 1,
    ensures
        ({
            let m = TreeNode { key: n.key, val: n.val, aux: n.aux, left: n.left, right: Some(Box::new(c)) };
            let r = splitted(skewed(Some(Box::new(m))));
            r is Some && aa_grown(Some(Box::new(n)), *r->0)
        }),
{
    let l = n.aux;
    let m = TreeNode { key: n.key, val: n.val, aux: n.aux, left: n.left, right: Some(Box::new(c)) };
    assert(skewed(Some(Box::new(m))) == Some(Box::new(m)));
    assert(aa_valid(c.left) && aa_valid(c.right));
    if c.aux == l && level_of(c.right) == l {
        let w = TreeNode { key: n.key, val: n.val, aux: l, left: n.left, right: c.left };
        assert(aa_valid(Some(Box::new(w))));
        let z = TreeNode { key: c.key, val: c.val, aux: (l + 1) as usize, left: Some(Box::new(w)), right: c.right };
        assert(aa_valid(Some(Box::new(z))));
        assert(splitted(Some(Box::new(m))) == Some(Box::new(z)));
    } else {
        assert(aa_valid(Some(Box::new(m))));
        assert(splitted(Some(Box::new(m))) == Some(Box::new(m)));
    }
}

/// A tree that keeps the AA rules has at least `2^level - 1` nodes.
proof fn lemma_aa_size<K, V>(l: AALink<K, V>)
    requires
        aa_valid(l),
    ensures
        crate::tree::link_size(l) + 1 >= crate::avl::two_pow(level_of(l) as nat),
    decreases l,
{
    match l {
        None => {},
        Some(n) => {
            lemma_aa_size(n.left);
            lemma_aa_size(n.right);
            assert(crate::avl::two_pow(n.aux as nat) == 2 * crate::avl::two_pow((n.aux - 1) as nat));
        },
    }
}

/// A tree that keeps the AA rules and has at most `usize::MAX` nodes has a
/// level of at most 64.
proof fn lemma_aa_level_bound<K, V>(l: AALink<K, V>)
    requires
        aa_valid(l),
        crate::tree::link_size(l) <= usize::MAX,
    ensures
        level_of(l) <= 64,
{
    lemma_aa_size(l);
    if level_of(l) > 64 {
        lemma_two_pow_mono(65, level_of(l) as nat);
        crate::avl::lemma_two_pow_64();
        assert(crate::avl::two_pow(65) == 2 * crate::avl::two_pow(64));
    }
}

/// Powers of two grow with the exponent.
proof fn lemma_two_pow_mono(a: nat, b: nat)
    requires
        a <= b,
    ensures
        crate::avl::two_pow(a) <= crate::avl::two_pow(b),
    decreases b,
{
    if a < b {
        lemma_two_pow_mono(a, (b - 1) as nat);
    }
}

/// What removing below `t` may give back: a tree that keeps the AA rules, at
/// the level of `t` or one below; at the same level, its right child stays
/// below it where that of `t` was.
pub open spec fn aa_shrunk<K, V>(t: AALink<K, V>, r: AALink<K, V>) -> bool {
    &&& aa_valid(r)
    &&& (level_of(r) == level_of(t) || level_of(r) + 1 == level_of(t))
    &&& (level_of(r) == level_of(t) && (t matches Some(tn) && level_of(tn.right) < tn.aux)
        ==> (r matches Some(rn) && level_of(rn.right) < rn.aux))
}

/// Putting back at `o` a left subtree shrunk by a removal and fixing the levels
/// gives a tree shrunk from `o`.
proof fn lemma_aa_fix_left<K, V>(o: AANode<K, V>, r: AALink<K, V>)
    requires
        aa_valid(Some(Box::new(o))),
        aa_shrunk(o.left, r),
        o.aux <= 64,
    ensures
        aa_shrunk(Some(Box::new(o)), Some(Box::new(fixed_after_remove(
            TreeNode { key: o.key, val: o.val, aux: o.aux, left: r, right: o.right })))),
{
    reveal_with_fuel(aa_valid, 5);
}

/// Putting back at `o` a right subtree shrunk by a removal and fixing the
/// levels gives a tree shrunk from `o`.
proof fn lemma_aa_fix_right<K, V>(o: AANode<K, V>, r: AALink<K, V>)
    requires
        aa_valid(Some(Box::new(o))),
        aa_shrunk(o.right, r),
        o.aux <= 64,
    ensures
        aa_shrunk(Some(Box::new(o)), Some(Box::new(fixed_after_remove(
            TreeNode { key: o.key, val: o.val, aux: o.aux, left: o.left, right: r })))),
{
    reveal_with_fuel(aa_valid, 5);
}

/// Checks the AA rules at every node of a subtree.
fn check_levels<K, V>(l: &AALink<K, V>) -> (r: bool)
    ensures
        r == aa_valid(*l),
    decreases *l,
{
    match l {
        None => true,
        Some(n) => {
            if n.aux < 1 || level(&n.left) != n.aux - 1 {
                return false;
            }
            let lr = level(&n.right);
            if !(lr == n.aux || lr == n.aux - 1) {
                return false;
            }
            let grand_ok = match &n.right {
                Some(rn) => level(&rn.right) < n.aux,
                None => true,
            };
            grand_ok && check_levels(&n.left) && check_levels(&n.right)
        },
    }
}

/// The level of the root of a subtree, 0 for the empty one.
fn level<K, V>(l: &AALink<K, V>) -> (r: usize)
    ensures
        r == level_of(*l),
{
    match l {
        None => 0,
        Some(n) => n.aux,
    }
}

/// Where the left child has the level of `t`, rotates right.
fn skew<K: TreeKey, V>(t: AALink<K, V>) -> (r: AALink<K, V>)
    requires
        link_ordered(t),
    ensures
        r == skewed(t),
        link_ordered(r),
        link_map(r) == link_map(t),
        r is Some <==> t is Some,
{
    match t {
        None => None,
        Some(n) => {
            if n.left.is_some() && level(&n.left) == n.aux {
                Some(rotate_right(n))
            } else {
                Some(n)
            }
        },
    }
}

/// Where the right grandchild has the level of `t`, rotates left and raises the new root.
fn split<K: TreeKey, V>(t: AALink<K, V>) -> (r: AALink<K, V>)
    requires
        link_ordered(t),
    ensures
        r == splitted(t),
        link_ordered(r),
        link_map(r) == link_map(t),
        r is Some <==> t is Some,
{
    match t {
        None => None,
        Some(n) => {
            let raise = match &n.right {
                Some(rn) => rn.right.is_some() && level(&rn.right) == n.aux,
                None => false,
            };
            if raise {
                let m = rotate_left(n);
                let TreeNode { key, val, aux, left, right } = *m;
                let lv = if aux < usize::MAX { aux + 1 } else { aux };
                let m2 = Box::new(TreeNode { key, val, aux: lv, left, right });
                Some(m2)
            } else {
                Some(n)
            }
        },
    }
}

/// Applies `skew` to the right subtree of `n`.
fn skew_right<K: TreeKey, V>(n: Box<AANode<K, V>>) -> (r: Box<AANode<K, V>>)
    requires
        n.node_ordered(),
    ensures
        *r == skewed_right(*n),
        r.node_ordered(),
        r.node_map() == n.node_map(),
{
    let TreeNode { key, val, aux, left, right } = *n;
    let nr = skew(right);
    Box::new(TreeNode { key, val, aux, left, right: nr })
}

/// Applies `split` to the right subtree of `n`.
fn split_right<K: TreeKey, V>(n: Box<AANode<K, V>>) -> (r: Box<AANode<K, V>>)
    requires
        n.node_ordered(),
    ensures
        *r == splitted_right(*n),
        r.node_ordered(),
        r.node_map() == n.node_map(),
{
    let TreeNode { key, val, aux, left, right } = *n;
    let nr = split(right);
    Box::new(TreeNode { key, val, aux, left, right: nr })
}

/// Lowers the level of `n` (and of its right child) to one above its lower child.
fn decrease_level<K: TreeKey, V>(n: Box<AANode<K, V>>) -> (r: Box<AANode<K, V>>)
    requires
        n.node_ordered(),
    ensures
        *r == lowered(*n),
        r.node_ordered(),
        r.node_map() == n.node_map(),
{
    let ll = level(&n.left);
    let lr = level(&n.right);
    let m = if ll < lr { ll } else { lr };
    let lv = if m < usize::MAX { m + 1 } else { m };
    if lv < n.aux {
        let TreeNode { key, val, aux: _, left, right } = *n;
        let right2 = if lv < lr {
            match right {
                Some(rn) => {
                    let TreeNode { key: rk, val: rv, aux: _, left: rl, right: rr } = *rn;
                    Some(Box::new(TreeNode { key: rk, val: rv, aux: lv, left: rl, right: rr }))
                },
                None => None,
            }
        } else {
            right
        };
        proof {
            assert(link_map(right2) == link_map(right));
            assert(link_ordered(right2) == link_ordered(right));
        }
        Box::new(TreeNode { key, val, aux: lv, left, right: right2 })
    } else {
        n
    }
}

/// Restores the levels at `t` after a removal below it.
fn fix_after_remove<K: TreeKey, V>(t: Box<AANode<K, V>>) -> (r: Box<AANode<K, V>>)
    requires
        t.node_ordered(),
    ensures
        *r == fixed_after_remove(*t),
        r.node_ordered(),
        r.node_map() == t.node_map(),
{
    let t = decrease_level(t);
    proof {
        assert(link_ordered(Some(t)));
    }
    let t = skew(Some(t)).unwrap();
    let t = skew_right(t);
    let TreeNode { key, val, aux, left, right } = *t;
    let right2 = match right {
        Some(rn) => Some(skew_right(rn)),
        None => None,
    };
    proof {
        assert(link_map(right2) == link_map(right));
        assert(link_ordered(right2) == link_ordered(right));
    }
    let t = Box::new(TreeNode { key, val, aux, left, right: right2 });
    proof {
        assert(t.node_ordered());
        assert(link_ordered(Some(t)));
    }
    let t = split(Some(t)).unwrap();
    split_right(t)
}

/// Inserts `k -> v` below `t`, skewing and splitting on the way up; gives back the
/// value `k` had.
fn insert_at<K: TreeKey, V>(t: AALink<K, V>, k: K, v: V) -> (r: (Box<AANode<K, V>>, Option<V>))
    requires
        link_ordered(t),
    ensures
        r.0.node_ordered(),
        r.0.node_map() == link_map(t).insert(k, v),
        r.1 == (if link_map(t).dom().contains(k) { Some(link_map(t)[k]) } else { None }),
        aa_valid(t) && level_of(t) <= 64 ==> aa_grown(t, *r.0),
    decreases t,
{
    match t {
        None => (Box::new(TreeNode::leaf(k, v, 1)), None),
        Some(node) => {
            let ghost old_node = *node;
            proof {
                lemma_node_lookup(old_node, k);
            }
            let TreeNode { key, val, aux, left, right } = *node;
            let (n, popped) = match k.compare(&key) {
                KeyOrder::Equal => {
                    proof {
                        K::lemma_rank_injective(k, key);
                    }
                    let n = Box::new(TreeNode { key, val: v, aux, left, right });
                    proof {
                        assert(n.node_map() =~= old_node.node_map().insert(k, v));
                    }
                    return (n, Some(val));
                },
                KeyOrder::Less => {
                    let (nl, popped) = insert_at(left, k, v);
                    let n = Box::new(TreeNode { key, val, aux, left: Some(nl), right });
                    proof {
                        assert(link_map(n.left) == nl.node_map());
                        assert(all_below(n.left, key.rank()));
                        lemma_insert_below(link_map(left), link_map(right), key, val, k, v, true);
                        if aa_valid(t) && level_of(t) <= 64 {
                            lemma_aa_insert_left(old_node, *nl);
                        }
                    }
                    (n, popped)
                },
                KeyOrder::Greater => {
                    let (nr, popped) = insert_at(right, k, v);
                    let n = Box::new(TreeNode { key, val, aux, left, right: Some(nr) });
                    proof {
                        assert(link_map(n.right) == nr.node_map());
                        assert(all_above(n.right, key.rank()));
                        lemma_insert_below(link_map(left), link_map(right), key, val, k, v, false);
                        if aa_valid(t) && level_of(t) <= 64 {
                            lemma_aa_insert_right(old_node, *nr);
                        }
                    }
                    (n, popped)
                },
            };
            proof {
                assert(n.node_ordered());
                assert(link_ordered(Some(n)));
            }
            let s = split(skew(Some(n))).unwrap();
            (s, popped)
        },
    }
}

/// Takes the entry of least key out of the subtree rooted at `n`, fixing levels on the way up.
fn remove_min<K: TreeKey, V>(n: Box<AANode<K, V>>) -> (r: (AALink<K, V>, K, V))
    requires
        n.node_ordered(),
    ensures
        link_ordered(r.0),
        n.node_map().dom().contains(r.1),
        n.node_map()[r.1] == r.2,
        link_map(r.0) == n.node_map().remove(r.1),
        forall|q: K| #[trigger] link_map(r.0).dom().contains(q) ==> q.rank() > r.1.rank(),
        aa_valid(Some(n)) && n.aux <= 64 ==> aa_shrunk(Some(n), r.0),
    decreases n,
{
    let ghost old_node = *n;
    proof {
        lemma_node_lookup(old_node, old_node.key);
    }
    let TreeNode { key, val, aux, left, right } = *n;
    match left {
        None => {
            proof {
                assert(link_map(right) =~= old_node.node_map().remove(key));
            }
            proof {
                reveal_with_fuel(aa_valid, 3);
            }
            (right, key, val)
        },
        Some(l) => {
            let ghost lg = *l;
            proof {
                assert(link_map(old_node.left) == lg.node_map());
            }
            let (nl, mk, mv) = remove_min(l);
            proof {
                lemma_node_lookup(old_node, mk);
                assert forall|q: K| #[trigger] link_map(nl).dom().contains(q) implies q.rank() < key.rank() by {
                    assert(lg.node_map().dom().contains(q));
                }
            }
            let m = Box::new(TreeNode { key, val, aux, left: nl, right });
            proof {
                assert(mk.rank() < key.rank());
                lemma_remove_below(link_map(old_node.left), link_map(right), key, val, mk, true);
                assert forall|q: K| #[trigger] m.node_map().dom().contains(q) implies q.rank() > mk.rank() by {
                    if q != key && !link_map(nl).dom().contains(q) {
                        assert(link_map(right).dom().contains(q));
                    }
                }
            }
            proof {
                if aa_valid(Some(Box::new(old_node))) && old_node.aux <= 64 {
                    lemma_aa_fix_left(old_node, nl);
                }
            }
            (Some(fix_after_remove(m)), mk, mv)
        },
    }
}

/// Takes the entry of greatest key out of the subtree rooted at `n`, fixing levels on the way up.
fn remove_max<K: TreeKey, V>(n: Box<AANode<K, V>>) -> (r: (AALink<K, V>, K, V))
    requires
        n.node_ordered(),
    ensures
        link_ordered(r.0),
        n.node_map().dom().contains(r.1),
        n.node_map()[r.1] == r.2,
        link_map(r.0) == n.node_map().remove(r.1),
        forall|q: K| #[trigger] link_map(r.0).dom().contains(q) ==> q.rank() < r.1.rank(),
        aa_valid(Some(n)) && n.aux <= 64 ==> aa_shrunk(Some(n), r.0),
    decreases n,
{
    let ghost old_node = *n;
    proof {
        lemma_node_lookup(old_node, old_node.key);
    }
    let TreeNode { key, val, aux, left, right } = *n;
    match right {
        None => {
            proof {
                assert(link_map(left) =~= old_node.node_map().remove(key));
            }
            proof {
                reveal_with_fuel(aa_valid, 3);
            }
            (left, key, val)
        },
        Some(rn) => {
            let ghost rg = *rn;
            proof {
                assert(link_map(old_node.right) == rg.node_map());
            }
            let (nr, mk, mv) = remove_max(rn);
            proof {
                lemma_node_lookup(old_node, mk);
                assert forall|q: K| #[trigger] link_map(nr).dom().contains(q) implies q.rank() > key.rank() by {
                    assert(rg.node_map().dom().contains(q));
                }
            }
            let m = Box::new(TreeNode { key, val, aux, left, right: nr });
            proof {
                assert(mk.rank() > key.rank());
                lemma_remove_below(link_map(left), link_map(old_node.right), key, val, mk, false);
                assert forall|q: K| #[trigger] m.node_map().dom().contains(q) implies q.rank() < mk.rank() by {
                    if q != key && !link_map(nr).dom().contains(q) {
                        assert(link_map(left).dom().contains(q));
                    }
                }
            }
            proof {
                if aa_valid(Some(Box::new(old_node))) && old_node.aux <= 64 {
                    lemma_aa_fix_right(old_node, nr);
                }
            }
            (Some(fix_after_remove(m)), mk, mv)
        },
    }
}

/// Removes `k` from below `t`, fixing levels on the way up; gives back its value.
/// A node with a left subtree takes the entry of its predecessor, one without
/// takes that of its successor.
fn remove_at<K: TreeKey, V>(t: AALink<K, V>, k: &K) -> (r: (AALink<K, V>, Option<V>))
    requires
        link_ordered(t),
    ensures
        link_ordered(r.0),
        link_map(r.0) == link_map(t).remove(*k),
        r.1 == (if link_map(t).dom().contains(*k) { Some(link_map(t)[*k]) } else { None }),
        aa_valid(t) && level_of(t) <= 64 ==> aa_shrunk(t, r.0),
    decreases t,
{
    match t {
        None => {
            proof {
                assert(link_map(t).remove(*k) =~= link_map(t));
            }
            (None, None)
        },
        Some(node) => {
            let ghost old_node = *node;
            proof {
                lemma_node_lookup(old_node, *k);
            }
            let TreeNode { key, val, aux, left, right } = *node;
            match k.compare(&key) {
                KeyOrder::Equal => {
                    proof {
                        K::lemma_rank_injective(*k, key);
                    }
                    if left.is_none() && right.is_none() {
                        proof {
                            assert(link_map(left) =~= old_node.node_map().remove(*k));
                            reveal_with_fuel(aa_valid, 2);
                        }
                        return (None, Some(val));
                    }
                    match left {
                        None => {
                            let rn = match right {
                                Some(rn) => rn,
                                None => {
                                    return (None, Some(val));
                                },
                            };
                            let ghost rg = *rn;
                            proof {
                                assert(old_node.right == Some(Box::new(rg)));
                                assert(link_ordered(old_node.right));
                                assert(link_map(old_node.right) == rg.node_map());
                            }
                            let (nr, sk, sv) = remove_min(rn);
                            proof {
                                lemma_node_lookup(old_node, sk);
                            }
                            let m = Box::new(TreeNode { key: sk, val: sv, aux, left: None, right: nr });
                            proof {
                                if aa_valid(t) && level_of(t) <= 64 {
                                    let o2 = TreeNode { key: sk, val: sv, aux, left: old_node.left, right: old_node.right };
                                    reveal_with_fuel(aa_valid, 3);
                                    assert(aa_valid(Some(Box::new(o2))));
                                    lemma_aa_fix_right(o2, nr);
                                }
                                assert forall|q: K| #[trigger] link_map(nr).dom().contains(q) implies link_map(old_node.right).dom().contains(q) by {
                                    assert(rg.node_map().dom().contains(q));
                                }
                                lemma_remove_root(link_map(left), rg.node_map(), key, val, sk, sv);
                            }
                            (Some(fix_after_remove(m)), Some(val))
                        },
                        Some(ln) => {
                            let ghost lg = *ln;
                            proof {
                                assert(old_node.left == Some(Box::new(lg)));
                                assert(link_ordered(old_node.left));
                                assert(link_map(old_node.left) == lg.node_map());
                            }
                            let (nl, pk, pv) = remove_max(ln);
                            proof {
                                lemma_node_lookup(old_node, pk);
                            }
                            let m = Box::new(TreeNode { key: pk, val: pv, aux, left: nl, right });
                            proof {
                                if aa_valid(t) && level_of(t) <= 64 {
                                    let o2 = TreeNode { key: pk, val: pv, aux, left: old_node.left, right: old_node.right };
                                    reveal_with_fuel(aa_valid, 2);
                                    assert(aa_valid(Some(Box::new(o2))));
                                    lemma_aa_fix_left(o2, nl);
                                }
                                assert forall|q: K| #[trigger] link_map(nl).dom().contains(q) implies link_map(old_node.left).dom().contains(q) by {
                                    assert(lg.node_map().dom().contains(q));
                                }
                                assert forall|q: K| #[trigger] link_map(right).dom().contains(q) implies q.rank() > pk.rank() by {
                                }
                                assert(m.node_map() =~= old_node.node_map().remove(*k)) by {
                                    let lm = lg.node_map();
                                    let rm = link_map(right);
                                    assert forall|q: K| #[trigger] m.node_map().dom().contains(q) == old_node.node_map().remove(*k).dom().contains(q) by {
                                    }
                                    assert forall|q: K| m.node_map().dom().contains(q) implies #[trigger] m.node_map()[q] == old_node.node_map().remove(*k)[q] by {
                                        if q != pk && rm.dom().contains(q) {
                                            assert(!lm.dom().contains(q));
                                        }
                                    }
                                }
                            }
                            (Some(fix_after_remove(m)), Some(val))
                        },
                    }
                },
                KeyOrder::Less => {
                    let (nl, popped) = remove_at(left, k);
                    let m = Box::new(TreeNode { key, val, aux, left: nl, right });
                    proof {
                        assert forall|q: K| #[trigger] link_map(nl).dom().contains(q) implies q.rank() < key.rank() by {
                            assert(link_map(old_node.left).dom().contains(q));
                        }
                        lemma_remove_below(link_map(left), link_map(right), key, val, *k, true);
                        if aa_valid(t) && level_of(t) <= 64 {
                            lemma_aa_fix_left(old_node, nl);
                        }
                    }
                    (Some(fix_after_remove(m)), popped)
                },
                KeyOrder::Greater => {
                    let (nr, popped) = remove_at(right, k);
                    let m = Box::new(TreeNode { key, val, aux, left, right: nr });
                    proof {
                        assert forall|q: K| #[trigger] link_map(nr).dom().contains(q) implies q.rank() > key.rank() by {
                            assert(link_map(old_node.right).dom().contains(q));
                        }
                        lemma_remove_below(link_map(left), link_map(right), key, val, *k, false);
                        if aa_valid(t) && level_of(t) <= 64 {
                            lemma_aa_fix_right(old_node, nr);
                        }
                    }
                    (Some(fix_after_remove(m)), popped)
                },
            }
        },
    }
}

/// An ordered map kept as an AA tree.
pub struct AA<K: TreeKey, V> {
    root: AALink<K, V>,
}

impl<K: TreeKey, V> AA<K, V> {
    #[verifier::type_invariant]
    spec fn well_formed(self) -> bool {
        &&& link_ordered(self.root)
        &&& aa_valid(self.root)
        &&& crate::tree::link_size(self.root) <= usize::MAX
    }

    /// The map the tree holds.
    pub closed spec fn map(self) -> Map<K, V> {
        link_map(self.root)
    }

    /// The tree keeps the AA rules at every node.
    pub closed spec fn balanced(self) -> bool {
        aa_valid(self.root)
    }
}

impl<K: TreeKey, V> View for AA<K, V> {
    type V = Map<K, V>;

    open spec fn view(&self) -> Map<K, V> {
        self.map()
    }
}

impl<K: TreeKey, V> AA<K, V> {
    /// The empty map.
    pub fn new() -> (r: Self)
        ensures
            r@ == Map::<K, V>::empty(),
            r.balanced(),
    {
        AA { root: None }
    }

    /// Checks the AA rules at every node: `Ok` exactly when they hold.
    pub fn self_validate(&self) -> (r: Result<(), ()>)
        ensures
            r is Ok <==> self.balanced(),
            r is Ok,
    {
        proof {
            use_type_invariant(self);
        }
        if check_levels(&self.root) {
            Ok(())
        } else {
            Err(())
        }
    }

    /// The value held for `k`, if any.
    pub fn get(&self, k: &K) -> (r: Option<&V>)
        ensures
            r == (if self@.dom().contains(*k) { Some(&self@[*k]) } else { None }),
    {
        proof {
            use_type_invariant(self);
        }
        link_get(&self.root, k)
    }

    /// Maps `k` to `v`; gives back the value `k` had, if any. The tree keeps the
    /// AA rules.
    pub fn insert(&mut self, k: K, v: V) -> (r: Option<V>)
        requires
            old(self)@.dom().len() < usize::MAX,
        ensures
            final(self)@ == old(self)@.insert(k, v),
            final(self).balanced(),
            r == (if old(self)@.dom().contains(k) { Some(old(self)@[k]) } else { None }),
    {
        proof {
            use_type_invariant(&*self);
            crate::avl::lemma_size_len(self.root);
            lemma_aa_level_bound(self.root);
        }
        let mut root = None;
        std::mem::swap(&mut root, &mut self.root);
        let (n, popped) = insert_at(root, k, v);
        proof {
            crate::avl::lemma_size_len(Some(n));
            assert(link_map(Some(n)).dom() =~= link_map(root).dom().insert(k));
        }
        self.root = Some(n);
        popped
    }

    /// Removes `k`; gives back its value, if it had one. The tree keeps the AA
    /// rules.
    pub fn remove(&mut self, k: &K) -> (r: Option<V>)
        ensures
            final(self)@ == old(self)@.remove(*k),
            final(self).balanced(),
            r == (if old(self)@.dom().contains(*k) { Some(old(self)@[*k]) } else { None }),
    {
        proof {
            use_type_invariant(&*self);
        }
        let mut root = None;
        std::mem::swap(&mut root, &mut self.root);
        proof {
            lemma_aa_level_bound(root);
        }
        let (n, popped) = remove_at(root, k);
        proof {
            crate::avl::lemma_size_len(root);
            crate::avl::lemma_size_len(n);
            assert(link_map(n).dom() =~= link_map(root).dom().remove(*k));
        }
        self.root = n;
        popped
    }
}

} // verus!

//! 2-3 trees, the B-trees of order three: every node holds one or two entries
//! and has no children or one more child than entries, and all the leaves lie at
//! one depth. A new entry goes into a leaf; a node that comes to hold three
//! entries splits in two around its middle entry, which moves up into the
//! parent (a new root where there is none). Removal takes an entry out of a
//! leaf, an inner entry first trading places with the least entry after it; a
//! node left empty borrows an entry through the parent from a sibling that holds
//! two, or else merges with a sibling and the separating entry of the parent.

use vstd::prelude::*;
use crate::tree::{TreeKey, KeyOrder, pairs_map, lemma_pairs_map_keys};

verus! {

/// A node of a 2-3 tree, with its subtrees; a missing subtree is `None`.
pub enum B3Node<K, V> {
    /// One entry between two subtrees.
    Two { left: Option<Box<B3Node<K, V>>>, key: K, val: V, right: Option<Box<B3Node<K, V>>> },
    /// Two entries among three subtrees.
    Three {
        left: Option<Box<B3Node<K, V>>>,
        k1: K,
        v1: V,
        mid: Option<Box<B3Node<K, V>>>,
        k2: K,
        v2: V,
        right: Option<Box<B3Node<K, V>>>,
    },
}

/// A subtree of a 2-3 tree.
pub type B3Link<K, V> = Option<Box<B3Node<K, V>>>;

/// Every key of `m` ranks below `r`.
pub open spec fn keys_below<K: TreeKey, V>(m: Map<K, V>, r: int) -> bool {
    forall|q: K| #[trigger] m.dom().contains(q) ==> q.rank() < r
}

/// Every key of `m` ranks above `r`.
pub open spec fn keys_above<K: TreeKey, V>(m: Map<K, V>, r: int) -> bool {
    forall|q: K| #[trigger] m.dom().contains(q) ==> q.rank() > r
}

/// The map of a node with one entry.
pub open spec fn two_map<K, V>(l: Map<K, V>, k: K, v: V, r: Map<K, V>) -> Map<K, V> {
    l.union_prefer_right(r).insert(k, v)
}

/// The map of a node with two entries.
pub open spec fn three_map<K, V>(l: Map<K, V>, k1: K, v1: V, m: Map<K, V>, k2: K, v2: V, r: Map<K, V>) -> Map<K, V> {
    l.union_prefer_right(m).union_prefer_right(r).insert(k1, v1).insert(k2, v2)
}

/// The map that a subtree holds.
pub open spec fn b3_map<K, V>(l: B3Link<K, V>) -> Map<K, V>
    decreases l,
{
    match l {
        None => Map::empty(),
        Some(n) => match *n {
            B3Node::Two { left, key, val, right } => two_map(b3_map(left), key, val, b3_map(right)),
            B3Node::Three { left, k1, v1, mid, k2, v2, right } => three_map(
                b3_map(left),
                k1,
                v1,
                b3_map(mid),
                k2,
                v2,
                b3_map(right),
            ),
        },
    }
}

/// The subtree is a search tree: the keys of each subtree lie between the
/// entries of the node around it.
pub open spec fn b3_ordered<K: TreeKey, V>(l: B3Link<K, V>) -> bool
    decreases l,
{
    match l {
        None => true,
        Some(n) => match *n {
            B3Node::Two { left, key, val, right } => {
                &&& keys_below(b3_map(left), key.rank())
                &&& keys_above(b3_map(right), key.rank())
                &&& b3_ordered(left)
                &&& b3_ordered(right)
            },
            B3Node::Three { left, k1, v1, mid, k2, v2, right } => {
                &&& k1.rank() < k2.rank()
                &&& keys_below(b3_map(left), k1.rank())
                &&& keys_above(b3_map(mid), k1.rank())
                &&& keys_below(b3_map(mid), k2.rank())
                &&& keys_above(b3_map(right), k2.rank())
                &&& b3_ordered(left)
                &&& b3_ordered(mid)
                &&& b3_ordered(right)
            },
        },
    }
}

/// The number of nodes on the leftmost path down from the root.
pub open spec fn b3_height<K, V>(l: B3Link<K, V>) -> nat
    decreases l,
{
    match l {
        None => 0,
        Some(n) => match *n {
            B3Node::Two { left, .. } => b3_height(left) + 1,
            B3Node::Three { left, .. } => b3_height(left) + 1,
        },
    }
}

/// All the subtrees of each node have one height, so that all leaves lie at one
/// depth.
pub open spec fn b3_balanced<K, V>(l: B3Link<K, V>) -> bool
    decreases l,
{
    match l {
        None => true,
        Some(n) => match *n {
            B3Node::Two { left, right, .. } => {
                &&& b3_balanced(left)
                &&& b3_balanced(right)
                &&& b3_height(left) == b3_height(right)
            },
            B3Node::Three { left, mid, right, .. } => {
                &&& b3_balanced(left)
                &&& b3_balanced(mid)
                &&& b3_balanced(right)
                &&& b3_height(left) == b3_height(mid)
                &&& b3_height(mid) == b3_height(right)
            },
        },
    }
}

/// A 2-3 tree: a balanced search tree.
pub open spec fn b3_wf<K: TreeKey, V>(l: B3Link<K, V>) -> bool {
    b3_ordered(l) && b3_balanced(l)
}

/// The empty subtree holds the empty map and is a 2-3 tree of height zero.
proof fn lemma_empty<K: TreeKey, V>()
    ensures
        b3_map::<K, V>(None) == Map::<K, V>::empty(),
        b3_height::<K, V>(None) == 0,
        b3_wf::<K, V>(None),
{
}

impl<K: TreeKey, V> B3Node<K, V> {
    /// A leaf holding `key -> value`.
    pub fn new_value(key: K, value: V) -> (r: Self)
        ensures
            b3_map(Some(Box::new(r))) == map![key => value],
            b3_wf(Some(Box::new(r))),
            b3_height(Some(Box::new(r))) == 1,
    {
        Self::new_ptr(Box::new(key), Box::new(value))
    }

    /// A leaf holding the boxed entry `key -> value`.
    pub fn new_ptr(key: Box<K>, value: Box<V>) -> (r: Self)
        ensures
            b3_map(Some(Box::new(r))) == map![*key => *value],
            b3_wf(Some(Box::new(r))),
            b3_height(Some(Box::new(r))) == 1,
    {
        let r = B3Node::Two { left: None, key: *key, val: *value, right: None };
        proof {
            lemma_empty::<K, V>();
            assert(b3_map(Some(Box::new(r))) =~= map![*key => *value]);
        }
        r
    }
}

/// The value that a search tree holds for `k`, if any.
fn b3_get<'a, K: TreeKey, V>(link: &'a B3Link<K, V>, k: &K) -> (r: Option<&'a V>)
    requires
        b3_ordered(*link),
    ensures
        r == (if b3_map(*link).dom().contains(*k) { Some(&b3_map(*link)[*k]) } else { None }),
    decreases link,
{
    match link {
        None => None,
        Some(node) => match &**node {
            B3Node::Two { left, key, val, right } => {
                match k.compare(key) {
                    KeyOrder::Equal => {
                        proof {
                            K::lemma_rank_injective(*k, *key);
                        }
                        Some(val)
                    },
                    KeyOrder::Less => {
                        proof {
                            assert(!b3_map(*right).dom().contains(*k));
                        }
                        b3_get(left, k)
                    },
                    KeyOrder::Greater => {
                        proof {
                            assert(!b3_map(*left).dom().contains(*k));
                        }
                        b3_get(right, k)
                    },
                }
            },
            B3Node::Three { left, k1, v1, mid, k2, v2, right } => {
                match k.compare(k1) {
                    KeyOrder::Equal => {
                        proof {
                            K::lemma_rank_injective(*k, *k1);
                            assert(k1 != k2);
                        }
                        Some(v1)
                    },
                    KeyOrder::Less => {
                        proof {
                            assert(!b3_map(*right).dom().contains(*k));
                            assert(!b3_map(*mid).dom().contains(*k));
                        }
                        b3_get(left, k)
                    },
                    KeyOrder::Greater => match k.compare(k2) {
                        KeyOrder::Equal => {
                            proof {
                                K::lemma_rank_injective(*k, *k2);
                            }
                            Some(v2)
                        },
                        KeyOrder::Less => {
                            proof {
                                assert(!b3_map(*right).dom().contains(*k));
                                assert(!b3_map(*left).dom().contains(*k));
                            }
                            b3_get(mid, k)
                        },
                        KeyOrder::Greater => {
                            proof {
                                assert(!b3_map(*mid).dom().contains(*k));
                                assert(!b3_map(*left).dom().contains(*k));
                            }
                            b3_get(right, k)
                        },
                    },
                }
            },
        },
    }
}

/// Whether `a` ranks below `b`.
fn rank_less<K: TreeKey>(a: &K, b: &K) -> (r: bool)
    ensures
        r == (a.rank() < b.rank()),
{
    match a.compare(b) {
        KeyOrder::Less => true,
        _ => false,
    }
}

/// An entry going into the left subtree of a node with one entry.
proof fn lemma_ins_two_left<K: TreeKey, V>(l: Map<K, V>, a: K, va: V, r: Map<K, V>, k: K, v: V)
    requires
        k.rank() < a.rank(),
        keys_above(r, a.rank()),
    ensures
        two_map(l.insert(k, v), a, va, r) == two_map(l, a, va, r).insert(k, v),
{
    assert(!r.dom().contains(k));
    assert(two_map(l.insert(k, v), a, va, r) =~= two_map(l, a, va, r).insert(k, v));
}

/// An entry going into the right subtree of a node with one entry.
proof fn lemma_ins_two_right<K: TreeKey, V>(l: Map<K, V>, a: K, va: V, r: Map<K, V>, k: K, v: V)
    requires
        k.rank() > a.rank(),
    ensures
        two_map(l, a, va, r.insert(k, v)) == two_map(l, a, va, r).insert(k, v),
{
    assert(two_map(l, a, va, r.insert(k, v)) =~= two_map(l, a, va, r).insert(k, v));
}

/// An entry going into the left subtree of a node with two entries.
proof fn lemma_ins_three_left<K: TreeKey, V>(
    l: Map<K, V>, k1: K, v1: V, m: Map<K, V>, k2: K, v2: V, r: Map<K, V>, k: K, v: V,
)
    requires
        k.rank() < k1.rank() < k2.rank(),
        keys_above(m, k1.rank()),
        keys_above(r, k2.rank()),
    ensures
        three_map(l.insert(k, v), k1, v1, m, k2, v2, r) == three_map(l, k1, v1, m, k2, v2, r).insert(k, v),
{
    assert(!r.dom().contains(k));
    assert(!m.dom().contains(k));
    assert(three_map(l.insert(k, v), k1, v1, m, k2, v2, r) =~= three_map(l, k1, v1, m, k2, v2, r).insert(k, v));
}

/// An entry going into the middle subtree of a node with two entries.
proof fn lemma_ins_three_mid<K: TreeKey, V>(
    l: Map<K, V>, k1: K, v1: V, m: Map<K, V>, k2: K, v2: V, r: Map<K, V>, k: K, v: V,
)
    requires
        k1.rank() < k.rank() < k2.rank(),
        keys_above(r, k2.rank()),
    ensures
        three_map(l, k1, v1, m.insert(k, v), k2, v2, r) == three_map(l, k1, v1, m, k2, v2, r).insert(k, v),
{
    assert(!r.dom().contains(k));
    assert(three_map(l, k1, v1, m.insert(k, v), k2, v2, r) =~= three_map(l, k1, v1, m, k2, v2, r).insert(k, v));
}

/// An entry going into the right subtree of a node with two entries.
proof fn lemma_ins_three_right<K: TreeKey, V>(
    l: Map<K, V>, k1: K, v1: V, m: Map<K, V>, k2: K, v2: V, r: Map<K, V>, k: K, v: V,
)
    requires
        k1.rank() < k2.rank() < k.rank(),
    ensures
        three_map(l, k1, v1, m, k2, v2, r.insert(k, v)) == three_map(l, k1, v1, m, k2, v2, r).insert(k, v),
{
    assert(three_map(l, k1, v1, m, k2, v2, r.insert(k, v)) =~= three_map(l, k1, v1, m, k2, v2, r).insert(k, v));
}

/// A node with one entry whose left subtree is a node with one entry holds the
/// map of a node with both entries.
proof fn lemma_join_left<K: TreeKey, V>(x: Map<K, V>, a: K, va: V, y: Map<K, V>, b: K, vb: V, r: Map<K, V>)
    requires
        a.rank() < b.rank(),
        keys_above(r, b.rank()),
    ensures
        two_map(two_map(x, a, va, y), b, vb, r) == three_map(x, a, va, y, b, vb, r),
{
    assert(!r.dom().contains(a));
    assert(two_map(two_map(x, a, va, y), b, vb, r) =~= three_map(x, a, va, y, b, vb, r));
}

/// A node with one entry whose right subtree is a node with one entry holds the
/// map of a node with both entries.
proof fn lemma_join_right<K: TreeKey, V>(l: Map<K, V>, a: K, va: V, x: Map<K, V>, b: K, vb: V, y: Map<K, V>)
    requires
        a.rank() < b.rank(),
    ensures
        two_map(l, a, va, two_map(x, b, vb, y)) == three_map(l, a, va, x, b, vb, y),
{
    assert(two_map(l, a, va, two_map(x, b, vb, y)) =~= three_map(l, a, va, x, b, vb, y));
}

/// Two nodes with one entry each, around a third entry, hold the map of a node
/// with two entries whose middle subtree holds that third entry.
proof fn lemma_join_mid<K: TreeKey, V>(
    l: Map<K, V>, k1: K, v1: V, x: Map<K, V>, km: K, vm: V, y: Map<K, V>, k2: K, v2: V, r: Map<K, V>,
)
    requires
        k1.rank() < km.rank() < k2.rank(),
        keys_below(l, k1.rank()),
        keys_above(y, k1.rank()),
        keys_above(r, k2.rank()),
    ensures
        two_map(two_map(l, k1, v1, x), km, vm, two_map(y, k2, v2, r)) == three_map(l, k1, v1, two_map(x, km, vm, y), k2, v2, r),
{
    assert(!l.dom().contains(km));
    assert(!r.dom().contains(km));
    assert(!r.dom().contains(k1));
    assert(!y.dom().contains(k1));
    assert(two_map(two_map(l, k1, v1, x), km, vm, two_map(y, k2, v2, r)) =~= three_map(l, k1, v1, two_map(x, km, vm, y), k2, v2, r));
}

/// The parts of a split lie below every bound that the whole lies below.
proof fn lemma_split_below<K: TreeKey, V>(x: Map<K, V>, km: K, vm: V, y: Map<K, V>, m: Map<K, V>, hi: int)
    requires
        two_map(x, km, vm, y) == m,
        keys_below(m, hi),
    ensures
        keys_below(x, hi),
        keys_below(y, hi),
        km.rank() < hi,
{
    assert(m.dom().contains(km));
    assert forall|q: K| #[trigger] x.dom().contains(q) implies q.rank() < hi by {
        assert(m.dom().contains(q));
    }
    assert forall|q: K| #[trigger] y.dom().contains(q) implies q.rank() < hi by {
        assert(m.dom().contains(q));
    }
}

/// The parts of a split lie above every bound that the whole lies above.
proof fn lemma_split_above<K: TreeKey, V>(x: Map<K, V>, km: K, vm: V, y: Map<K, V>, m: Map<K, V>, lo: int)
    requires
        two_map(x, km, vm, y) == m,
        keys_above(m, lo),
    ensures
        keys_above(x, lo),
        keys_above(y, lo),
        km.rank() > lo,
{
    assert(m.dom().contains(km));
    assert forall|q: K| #[trigger] x.dom().contains(q) implies q.rank() > lo by {
        assert(m.dom().contains(q));
    }
    assert forall|q: K| #[trigger] y.dom().contains(q) implies q.rank() > lo by {
        assert(m.dom().contains(q));
    }
}

/// What inserting into a subtree gives back: a subtree of the same height, or two
/// subtrees of that height with the entry between them, to go one level up.
enum Grown<K, V> {
    Fit(Box<B3Node<K, V>>),
    Split(B3Link<K, V>, K, V, B3Link<K, V>),
}

/// The map that an insertion result holds.
spec fn grown_map<K, V>(g: Grown<K, V>) -> Map<K, V> {
    match g {
        Grown::Fit(n) => b3_map(Some(n)),
        Grown::Split(x, k, v, y) => two_map(b3_map(x), k, v, b3_map(y)),
    }
}

/// An insertion result made of 2-3 trees of height `h`, in search order.
spec fn grown_ok<K: TreeKey, V>(g: Grown<K, V>, h: nat) -> bool {
    match g {
        Grown::Fit(n) => b3_wf(Some(n)) && b3_height(Some(n)) == h,
        Grown::Split(x, k, v, y) => {
            &&& b3_wf(x)
            &&& b3_wf(y)
            &&& b3_height(x) == h
            &&& b3_height(y) == h
            &&& keys_below(b3_map(x), k.rank())
            &&& keys_above(b3_map(y), k.rank())
        },
    }
}

/// Puts `k -> v`, for a `k` not held yet, into a leaf below `link`, splitting the
/// nodes that come to hold three entries on the way back up.
fn ins<K: TreeKey, V>(link: B3Link<K, V>, k: K, v: V) -> (r: Grown<K, V>)
    requires
        b3_wf(link),
        !b3_map(link).dom().contains(k),
    ensures
        grown_map(r) == b3_map(link).insert(k, v),
        grown_ok(r, b3_height(link)),
    decreases link,
{
    proof {
        lemma_empty::<K, V>();
    }
    match link {
        None => {
            proof {
                assert(two_map(b3_map::<K, V>(None), k, v, b3_map::<K, V>(None)) =~= Map::<K, V>::empty().insert(k, v));
            }
            Grown::Split(None, k, v, None)
        },
        Some(node) => {
            match *node {
                B3Node::Two { left, key, val, right } => {
                    let ghost ml = b3_map(left);
                    let ghost mr = b3_map(right);
                    proof {
                        K::lemma_rank_injective(k, key);
                    }
                    if rank_less(&k, &key) {
                        let g = ins(left, k, v);
                        proof {
                            lemma_ins_two_left(ml, key, val, mr, k, v);
                        }
                        match g {
                            Grown::Fit(nl) => Grown::Fit(Box::new(B3Node::Two { left: Some(nl), key, val, right })),
                            Grown::Split(x, km, vm, y) => {
                                proof {
                                    lemma_split_below(b3_map(x), km, vm, b3_map(y), ml.insert(k, v), key.rank());
                                    lemma_join_left(b3_map(x), km, vm, b3_map(y), key, val, mr);
                                }
                                Grown::Fit(Box::new(B3Node::Three { left: x, k1: km, v1: vm, mid: y, k2: key, v2: val, right }))
                            },
                        }
                    } else {
                        let g = ins(right, k, v);
                        proof {
                            lemma_ins_two_right(ml, key, val, mr, k, v);
                        }
                        match g {
                            Grown::Fit(nr) => Grown::Fit(Box::new(B3Node::Two { left, key, val, right: Some(nr) })),
                            Grown::Split(x, km, vm, y) => {
                                proof {
                                    lemma_split_above(b3_map(x), km, vm, b3_map(y), mr.insert(k, v), key.rank());
                                    lemma_join_right(ml, key, val, b3_map(x), km, vm, b3_map(y));
                                }
                                Grown::Fit(Box::new(B3Node::Three { left, k1: key, v1: val, mid: x, k2: km, v2: vm, right: y }))
                            },
                        }
                    }
                },
                B3Node::Three { left, k1, v1, mid, k2, v2, right } => {
                    let ghost ml = b3_map(left);
                    let ghost mm = b3_map(mid);
                    let ghost mr = b3_map(right);
                    proof {
                        K::lemma_rank_injective(k, k1);
                        K::lemma_rank_injective(k, k2);
                    }
                    if rank_less(&k, &k1) {
                        let g = ins(left, k, v);
                        proof {
                            lemma_ins_three_left(ml, k1, v1, mm, k2, v2, mr, k, v);
                        }
                        match g {
                            Grown::Fit(nl) => Grown::Fit(Box::new(B3Node::Three { left: Some(nl), k1, v1, mid, k2, v2, right })),
                            Grown::Split(x, km, vm, y) => {
                                let a = Some(Box::new(B3Node::Two { left: x, key: km, val: vm, right: y }));
                                let b = Some(Box::new(B3Node::Two { left: mid, key: k2, val: v2, right }));
                                proof {
                                    lemma_split_below(b3_map(x), km, vm, b3_map(y), ml.insert(k, v), k1.rank());
                                    assert(b3_map(a) == ml.insert(k, v));
                                    assert(keys_above(b3_map(b), k1.rank()));
                                    lemma_join_right(b3_map(a), k1, v1, mm, k2, v2, mr);
                                }
                                Grown::Split(a, k1, v1, b)
                            },
                        }
                    } else if rank_less(&k, &k2) {
                        let g = ins(mid, k, v);
                        proof {
                            lemma_ins_three_mid(ml, k1, v1, mm, k2, v2, mr, k, v);
                        }
                        match g {
                            Grown::Fit(nm) => Grown::Fit(Box::new(B3Node::Three { left, k1, v1, mid: Some(nm), k2, v2, right })),
                            Grown::Split(x, km, vm, y) => {
                                let ghost mx = b3_map(x);
                                let ghost my = b3_map(y);
                                proof {
                                    lemma_split_below(mx, km, vm, my, mm.insert(k, v), k2.rank());
                                    lemma_split_above(mx, km, vm, my, mm.insert(k, v), k1.rank());
                                    lemma_join_mid(ml, k1, v1, mx, km, vm, my, k2, v2, mr);
                                }
                                let a = Some(Box::new(B3Node::Two { left, key: k1, val: v1, right: x }));
                                let b = Some(Box::new(B3Node::Two { left: y, key: k2, val: v2, right }));
                                proof {
                                    assert(keys_below(b3_map(a), km.rank()));
                                    assert(keys_above(b3_map(b), km.rank()));
                                }
                                Grown::Split(a, km, vm, b)
                            },
                        }
                    } else {
                        let g = ins(right, k, v);
                        proof {
                            lemma_ins_three_right(ml, k1, v1, mm, k2, v2, mr, k, v);
                        }
                        match g {
                            Grown::Fit(nr) => Grown::Fit(Box::new(B3Node::Three { left, k1, v1, mid, k2, v2, right: Some(nr) })),
                            Grown::Split(x, km, vm, y) => {
                                let a = Some(Box::new(B3Node::Two { left, key: k1, val: v1, right: mid }));
                                let b = Some(Box::new(B3Node::Two { left: x, key: km, val: vm, right: y }));
                                proof {
                                    lemma_split_above(b3_map(x), km, vm, b3_map(y), mr.insert(k, v), k2.rank());
                                    assert(b3_map(b) == mr.insert(k, v));
                                    assert(keys_below(b3_map(a), k2.rank()));
                                    lemma_join_left(ml, k1, v1, mm, k2, v2, b3_map(b));
                                }
                                Grown::Split(a, k2, v2, b)
                            },
                        }
                    }
                },
            }
        },
    }
}

/// A subtree has height zero exactly where it is empty.
proof fn lemma_height_zero<K, V>(l: B3Link<K, V>)
    ensures
        (b3_height(l) == 0) == (l is None),
{
    match l {
        None => {},
        Some(n) => match *n {
            B3Node::Two { left, .. } => {},
            B3Node::Three { left, .. } => {},
        },
    }
}

/// The parts of a node with two entries lie below every bound that the whole
/// lies below.
proof fn lemma_three_below<K: TreeKey, V>(
    l: Map<K, V>, k1: K, v1: V, m: Map<K, V>, k2: K, v2: V, r: Map<K, V>, hi: int,
)
    requires
        keys_below(three_map(l, k1, v1, m, k2, v2, r), hi),
    ensures
        keys_below(l, hi),
        keys_below(m, hi),
        keys_below(r, hi),
        k1.rank() < hi,
        k2.rank() < hi,
{
    let t = three_map(l, k1, v1, m, k2, v2, r);
    assert(t.dom().contains(k1));
    assert(t.dom().contains(k2));
    assert forall|q: K| #[trigger] l.dom().contains(q) implies q.rank() < hi by {
        assert(t.dom().contains(q));
    }
    assert forall|q: K| #[trigger] m.dom().contains(q) implies q.rank() < hi by {
        assert(t.dom().contains(q));
    }
    assert forall|q: K| #[trigger] r.dom().contains(q) implies q.rank() < hi by {
        assert(t.dom().contains(q));
    }
}

/// The parts of a node with two entries lie above every bound that the whole
/// lies above.
proof fn lemma_three_above<K: TreeKey, V>(
    l: Map<K, V>, k1: K, v1: V, m: Map<K, V>, k2: K, v2: V, r: Map<K, V>, lo: int,
)
    requires
        keys_above(three_map(l, k1, v1, m, k2, v2, r), lo),
    ensures
        keys_above(l, lo),
        keys_above(m, lo),
        keys_above(r, lo),
        k1.rank() > lo,
        k2.rank() > lo,
{
    let t = three_map(l, k1, v1, m, k2, v2, r);
    assert(t.dom().contains(k1));
    assert(t.dom().contains(k2));
    assert forall|q: K| #[trigger] l.dom().contains(q) implies q.rank() > lo by {
        assert(t.dom().contains(q));
    }
    assert forall|q: K| #[trigger] m.dom().contains(q) implies q.rank() > lo by {
        assert(t.dom().contains(q));
    }
    assert forall|q: K| #[trigger] r.dom().contains(q) implies q.rank() > lo by {
        assert(t.dom().contains(q));
    }
}

/// Moving the least entry of a right sibling with two entries over to a left
/// subtree, through the entry between them, leaves the map unchanged.
proof fn lemma_borrow_right<K: TreeKey, V>(
    h: Map<K, V>, a: K, va: V, sl: Map<K, V>, b: K, vb: V, sm: Map<K, V>, c: K, vc: V, sr: Map<K, V>,
)
    requires
        keys_below(h, a.rank()),
        a.rank() < b.rank() < c.rank(),
        keys_above(sl, a.rank()),
        keys_below(sl, b.rank()),
        keys_above(sm, b.rank()),
        keys_below(sm, c.rank()),
        keys_above(sr, c.rank()),
    ensures
        two_map(two_map(h, a, va, sl), b, vb, two_map(sm, c, vc, sr)) == two_map(h, a, va, three_map(sl, b, vb, sm, c, vc, sr)),
{
    assert(two_map(two_map(h, a, va, sl), b, vb, two_map(sm, c, vc, sr)) =~= two_map(h, a, va, three_map(sl, b, vb, sm, c, vc, sr)));
}

/// Moving the greatest entry of a left sibling with two entries over to a right
/// subtree, through the entry between them, leaves the map unchanged.
proof fn lemma_borrow_left<K: TreeKey, V>(
    sl: Map<K, V>, b: K, vb: V, sm: Map<K, V>, c: K, vc: V, sr: Map<K, V>, a: K, va: V, h: Map<K, V>,
)
    requires
        b.rank() < c.rank() < a.rank(),
        keys_below(sl, b.rank()),
        keys_above(sm, b.rank()),
        keys_below(sm, c.rank()),
        keys_above(sr, c.rank()),
        keys_below(sr, a.rank()),
        keys_above(h, a.rank()),
    ensures
        two_map(two_map(sl, b, vb, sm), c, vc, two_map(sr, a, va, h)) == two_map(three_map(sl, b, vb, sm, c, vc, sr), a, va, h),
{
    assert(two_map(two_map(sl, b, vb, sm), c, vc, two_map(sr, a, va, h)) =~= two_map(three_map(sl, b, vb, sm, c, vc, sr), a, va, h));
}

/// What joining a subtree one level short to its sibling gives back: two subtrees
/// of the sibling's height with the entry between them, or one such subtree.
enum Joined<K, V> {
    Pair(B3Link<K, V>, K, V, B3Link<K, V>),
    One(B3Link<K, V>),
}

/// The map that a join result holds.
spec fn joined_map<K, V>(j: Joined<K, V>) -> Map<K, V> {
    match j {
        Joined::Pair(x, k, v, y) => two_map(b3_map(x), k, v, b3_map(y)),
        Joined::One(z) => b3_map(z),
    }
}

/// A join result made of 2-3 trees of height `h`, in search order.
spec fn joined_ok<K: TreeKey, V>(j: Joined<K, V>, h: nat) -> bool {
    match j {
        Joined::Pair(x, k, v, y) => {
            &&& b3_wf(x)
            &&& b3_wf(y)
            &&& b3_height(x) == h
            &&& b3_height(y) == h
            &&& keys_below(b3_map(x), k.rank())
            &&& keys_above(b3_map(y), k.rank())
        },
        Joined::One(z) => b3_wf(z) && b3_height(z) == h,
    }
}

/// Joins `hole`, one level shorter than its right sibling `sib`, with the entry
/// `a -> va` between them: borrows the least entry of a sibling with two
/// entries, else merges into one node with three subtrees.
fn join_right<K: TreeKey, V>(hole: B3Link<K, V>, a: K, va: V, sib: Box<B3Node<K, V>>) -> (r: Joined<K, V>)
    requires
        b3_wf(hole),
        b3_wf(Some(sib)),
        b3_height(Some(sib)) == b3_height(hole) + 1,
        keys_below(b3_map(hole), a.rank()),
        keys_above(b3_map(Some(sib)), a.rank()),
    ensures
        joined_map(r) == two_map(b3_map(hole), a, va, b3_map(Some(sib))),
        joined_ok(r, b3_height(Some(sib))),
{
    let ghost mh = b3_map(hole);
    match *sib {
        B3Node::Three { left, k1, v1, mid, k2, v2, right } => {
            proof {
                lemma_three_above(b3_map(left), k1, v1, b3_map(mid), k2, v2, b3_map(right), a.rank());
                lemma_borrow_right(mh, a, va, b3_map(left), k1, v1, b3_map(mid), k2, v2, b3_map(right));
            }
            let x = Some(Box::new(B3Node::Two { left: hole, key: a, val: va, right: left }));
            let y = Some(Box::new(B3Node::Two { left: mid, key: k2, val: v2, right }));
            Joined::Pair(x, k1, v1, y)
        },
        B3Node::Two { left, key, val, right } => {
            proof {
                lemma_split_above(b3_map(left), key, val, b3_map(right), two_map(b3_map(left), key, val, b3_map(right)), a.rank());
                lemma_join_right(mh, a, va, b3_map(left), key, val, b3_map(right));
            }
            Joined::One(Some(Box::new(B3Node::Three { left: hole, k1: a, v1: va, mid: left, k2: key, v2: val, right })))
        },
    }
}

/// Joins `hole`, one level shorter than its left sibling `sib`, with the entry
/// `a -> va` between them: borrows the greatest entry of a sibling with two
/// entries, else merges into one node with three subtrees.
fn join_left<K: TreeKey, V>(sib: Box<B3Node<K, V>>, a: K, va: V, hole: B3Link<K, V>) -> (r: Joined<K, V>)
    requires
        b3_wf(hole),
        b3_wf(Some(sib)),
        b3_height(Some(sib)) == b3_height(hole) + 1,
        keys_above(b3_map(hole), a.rank()),
        keys_below(b3_map(Some(sib)), a.rank()),
    ensures
        joined_map(r) == two_map(b3_map(Some(sib)), a, va, b3_map(hole)),
        joined_ok(r, b3_height(Some(sib))),
{
    let ghost mh = b3_map(hole);
    match *sib {
        B3Node::Three { left, k1, v1, mid, k2, v2, right } => {
            proof {
                lemma_three_below(b3_map(left), k1, v1, b3_map(mid), k2, v2, b3_map(right), a.rank());
                lemma_borrow_left(b3_map(left), k1, v1, b3_map(mid), k2, v2, b3_map(right), a, va, mh);
            }
            let x = Some(Box::new(B3Node::Two { left, key: k1, val: v1, right: mid }));
            let y = Some(Box::new(B3Node::Two { left: right, key: a, val: va, right: hole }));
            Joined::Pair(x, k2, v2, y)
        },
        B3Node::Two { left, key, val, right } => {
            proof {
                lemma_split_below(b3_map(left), key, val, b3_map(right), two_map(b3_map(left), key, val, b3_map(right)), a.rank());
                lemma_join_left(b3_map(left), key, val, b3_map(right), a, va, mh);
            }
            Joined::One(Some(Box::new(B3Node::Three { left, k1: key, v1: val, mid: right, k2: a, v2: va, right: hole })))
        },
    }
}

/// The subtree's root holds two entries.
fn is_three<K, V>(l: &B3Link<K, V>) -> (r: bool)
    ensures
        r == (l matches Some(n) && **n is Three),
{
    match l {
        Some(n) => match &**n {
            B3Node::Three { .. } => true,
            B3Node::Two { .. } => false,
        },
        None => false,
    }
}

/// Repairs a node with one entry whose left subtree `hole` came out one level
/// short; tells whether the result is one level short itself.
fn fix_two_left<K: TreeKey, V>(hole: B3Link<K, V>, a: K, va: V, right: B3Link<K, V>) -> (r: (B3Link<K, V>, bool))
    requires
        b3_wf(hole),
        b3_wf(right),
        b3_height(right) == b3_height(hole) + 1,
        keys_below(b3_map(hole), a.rank()),
        keys_above(b3_map(right), a.rank()),
    ensures
        b3_wf(r.0),
        b3_map(r.0) == two_map(b3_map(hole), a, va, b3_map(right)),
        b3_height(r.0) + (if r.1 { 1int } else { 0int }) == b3_height(right) + 1,
{
    proof {
        lemma_height_zero(right);
    }
    match right {
        None => (hole, false),
        Some(rs) => match join_right(hole, a, va, rs) {
            Joined::Pair(x, b, vb, y) => (Some(Box::new(B3Node::Two { left: x, key: b, val: vb, right: y })), false),
            Joined::One(z) => (z, true),
        },
    }
}

/// Repairs a node with one entry whose right subtree `hole` came out one level
/// short; tells whether the result is one level short itself.
fn fix_two_right<K: TreeKey, V>(left: B3Link<K, V>, a: K, va: V, hole: B3Link<K, V>) -> (r: (B3Link<K, V>, bool))
    requires
        b3_wf(hole),
        b3_wf(left),
        b3_height(left) == b3_height(hole) + 1,
        keys_above(b3_map(hole), a.rank()),
        keys_below(b3_map(left), a.rank()),
    ensures
        b3_wf(r.0),
        b3_map(r.0) == two_map(b3_map(left), a, va, b3_map(hole)),
        b3_height(r.0) + (if r.1 { 1int } else { 0int }) == b3_height(left) + 1,
{
    proof {
        lemma_height_zero(left);
    }
    match left {
        None => (hole, false),
        Some(ls) => match join_left(ls, a, va, hole) {
            Joined::Pair(x, b, vb, y) => (Some(Box::new(B3Node::Two { left: x, key: b, val: vb, right: y })), false),
            Joined::One(z) => (z, true),
        },
    }
}

/// Repairs a node with two entries whose left subtree `hole` came out one level
/// short; the result keeps the height.
fn fix_three_left<K: TreeKey, V>(
    hole: B3Link<K, V>, k1: K, v1: V, mid: B3Link<K, V>, k2: K, v2: V, right: B3Link<K, V>,
) -> (r: B3Link<K, V>)
    requires
        b3_wf(hole),
        b3_wf(mid),
        b3_wf(right),
        b3_height(mid) == b3_height(hole) + 1,
        b3_height(right) == b3_height(mid),
        k1.rank() < k2.rank(),
        keys_below(b3_map(hole), k1.rank()),
        keys_above(b3_map(mid), k1.rank()),
        keys_below(b3_map(mid), k2.rank()),
        keys_above(b3_map(right), k2.rank()),
    ensures
        b3_wf(r),
        b3_map(r) == three_map(b3_map(hole), k1, v1, b3_map(mid), k2, v2, b3_map(right)),
        b3_height(r) == b3_height(mid) + 1,
{
    let ghost mh = b3_map(hole);
    let ghost mm = b3_map(mid);
    let ghost mr = b3_map(right);
    proof {
        lemma_height_zero(mid);
        lemma_join_left(mh, k1, v1, mm, k2, v2, mr);
        assert(keys_below(two_map(mh, k1, v1, mm), k2.rank()));
    }
    match mid {
        None => hole,
        Some(ms) => match join_right(hole, k1, v1, ms) {
            Joined::Pair(x, c, vc, y) => {
                proof {
                    lemma_split_below(b3_map(x), c, vc, b3_map(y), two_map(mh, k1, v1, mm), k2.rank());
                    lemma_join_left(b3_map(x), c, vc, b3_map(y), k2, v2, mr);
                }
                Some(Box::new(B3Node::Three { left: x, k1: c, v1: vc, mid: y, k2, v2, right }))
            },
            Joined::One(z) => Some(Box::new(B3Node::Two { left: z, key: k2, val: v2, right })),
        },
    }
}

/// Repairs a node with two entries whose right subtree `hole` came out one level
/// short; the result keeps the height.
fn fix_three_right<K: TreeKey, V>(
    left: B3Link<K, V>, k1: K, v1: V, mid: B3Link<K, V>, k2: K, v2: V, hole: B3Link<K, V>,
) -> (r: B3Link<K, V>)
    requires
        b3_wf(hole),
        b3_wf(mid),
        b3_wf(left),
        b3_height(mid) == b3_height(hole) + 1,
        b3_height(left) == b3_height(mid),
        k1.rank() < k2.rank(),
        keys_below(b3_map(left), k1.rank()),
        keys_above(b3_map(mid), k1.rank()),
        keys_below(b3_map(mid), k2.rank()),
        keys_above(b3_map(hole), k2.rank()),
    ensures
        b3_wf(r),
        b3_map(r) == three_map(b3_map(left), k1, v1, b3_map(mid), k2, v2, b3_map(hole)),
        b3_height(r) == b3_height(mid) + 1,
{
    let ghost ml = b3_map(left);
    let ghost mm = b3_map(mid);
    let ghost mh = b3_map(hole);
    proof {
        lemma_height_zero(mid);
        lemma_join_right(ml, k1, v1, mm, k2, v2, mh);
        assert(keys_above(two_map(mm, k2, v2, mh), k1.rank()));
    }
    match mid {
        None => hole,
        Some(ms) => match join_left(ms, k2, v2, hole) {
            Joined::Pair(x, c, vc, y) => {
                proof {
                    lemma_split_above(b3_map(x), c, vc, b3_map(y), two_map(mm, k2, v2, mh), k1.rank());
                    lemma_join_right(ml, k1, v1, b3_map(x), c, vc, b3_map(y));
                }
                Some(Box::new(B3Node::Three { left, k1, v1, mid: x, k2: c, v2: vc, right: y }))
            },
            Joined::One(z) => Some(Box::new(B3Node::Two { left, key: k1, val: v1, right: z })),
        },
    }
}

/// Repairs a node with two entries whose middle subtree `hole` came out one level
/// short, preferring to borrow from the right sibling, then from the left one,
/// then to merge with the right one; the result keeps the height.
fn fix_three_mid<K: TreeKey, V>(
    left: B3Link<K, V>, k1: K, v1: V, hole: B3Link<K, V>, k2: K, v2: V, right: B3Link<K, V>,
) -> (r: B3Link<K, V>)
    requires
        b3_wf(hole),
        b3_wf(left),
        b3_wf(right),
        b3_height(left) == b3_height(hole) + 1,
        b3_height(right) == b3_height(left),
        k1.rank() < k2.rank(),
        keys_below(b3_map(left), k1.rank()),
        keys_above(b3_map(hole), k1.rank()),
        keys_below(b3_map(hole), k2.rank()),
        keys_above(b3_map(right), k2.rank()),
    ensures
        b3_wf(r),
        b3_map(r) == three_map(b3_map(left), k1, v1, b3_map(hole), k2, v2, b3_map(right)),
        b3_height(r) == b3_height(left) + 1,
{
    let ghost ml = b3_map(left);
    let ghost mh = b3_map(hole);
    let ghost mr = b3_map(right);
    proof {
        lemma_height_zero(left);
        lemma_height_zero(right);
    }
    if is_three(&right) || !is_three(&left) {
        proof {
            lemma_join_right(ml, k1, v1, mh, k2, v2, mr);
            assert(keys_above(two_map(mh, k2, v2, mr), k1.rank()));
        }
        match right {
            None => hole,
            Some(rs) => match join_right(hole, k2, v2, rs) {
                Joined::Pair(x, c, vc, y) => {
                    proof {
                        lemma_split_above(b3_map(x), c, vc, b3_map(y), two_map(mh, k2, v2, mr), k1.rank());
                        lemma_join_right(ml, k1, v1, b3_map(x), c, vc, b3_map(y));
                    }
                    Some(Box::new(B3Node::Three { left, k1, v1, mid: x, k2: c, v2: vc, right: y }))
                },
                Joined::One(z) => Some(Box::new(B3Node::Two { left, key: k1, val: v1, right: z })),
            },
        }
    } else {
        proof {
            lemma_join_left(ml, k1, v1, mh, k2, v2, mr);
            assert(keys_below(two_map(ml, k1, v1, mh), k2.rank()));
        }
        match left {
            None => hole,
            Some(ls) => match join_left(ls, k1, v1, hole) {
                Joined::Pair(x, c, vc, y) => {
                    proof {
                        lemma_split_below(b3_map(x), c, vc, b3_map(y), two_map(ml, k1, v1, mh), k2.rank());
                        lemma_join_left(b3_map(x), c, vc, b3_map(y), k2, v2, mr);
                    }
                    Some(Box::new(B3Node::Three { left: x, k1: c, v1: vc, mid: y, k2, v2, right }))
                },
                Joined::One(z) => Some(Box::new(B3Node::Two { left: z, key: k2, val: v2, right })),
            },
        }
    }
}

/// Removing a key from the left subtree of a node with one entry.
proof fn lemma_rm_two_left<K: TreeKey, V>(l: Map<K, V>, a: K, va: V, r: Map<K, V>, k: K)
    requires
        k.rank() < a.rank(),
        keys_above(r, a.rank()),
    ensures
        two_map(l.remove(k), a, va, r) == two_map(l, a, va, r).remove(k),
        two_map(l, a, va, r).dom().contains(k) == l.dom().contains(k),
        l.dom().contains(k) ==> two_map(l, a, va, r)[k] == l[k],
{
    assert(!r.dom().contains(k));
    assert(two_map(l.remove(k), a, va, r) =~= two_map(l, a, va, r).remove(k));
}

/// Removing a key from the right subtree of a node with one entry.
proof fn lemma_rm_two_right<K: TreeKey, V>(l: Map<K, V>, a: K, va: V, r: Map<K, V>, k: K)
    requires
        k.rank() > a.rank(),
        keys_below(l, a.rank()),
    ensures
        two_map(l, a, va, r.remove(k)) == two_map(l, a, va, r).remove(k),
        two_map(l, a, va, r).dom().contains(k) == r.dom().contains(k),
        r.dom().contains(k) ==> two_map(l, a, va, r)[k] == r[k],
{
    assert(!l.dom().contains(k));
    assert(two_map(l, a, va, r.remove(k)) =~= two_map(l, a, va, r).remove(k));
}

/// Removing a key from the left subtree of a node with two entries.
proof fn lemma_rm_three_left<K: TreeKey, V>(l: Map<K, V>, k1: K, v1: V, m: Map<K, V>, k2: K, v2: V, r: Map<K, V>, k: K)
    requires
        k.rank() < k1.rank() < k2.rank(),
        keys_above(m, k1.rank()),
        keys_above(r, k2.rank()),
    ensures
        three_map(l.remove(k), k1, v1, m, k2, v2, r) == three_map(l, k1, v1, m, k2, v2, r).remove(k),
        three_map(l, k1, v1, m, k2, v2, r).dom().contains(k) == l.dom().contains(k),
        l.dom().contains(k) ==> three_map(l, k1, v1, m, k2, v2, r)[k] == l[k],
{
    assert(!r.dom().contains(k));
    assert(!m.dom().contains(k));
    assert(three_map(l.remove(k), k1, v1, m, k2, v2, r) =~= three_map(l, k1, v1, m, k2, v2, r).remove(k));
}

/// Removing a key from the middle subtree of a node with two entries.
proof fn lemma_rm_three_mid<K: TreeKey, V>(l: Map<K, V>, k1: K, v1: V, m: Map<K, V>, k2: K, v2: V, r: Map<K, V>, k: K)
    requires
        k1.rank() < k.rank() < k2.rank(),
        keys_below(l, k1.rank()),
        keys_above(r, k2.rank()),
    ensures
        three_map(l, k1, v1, m.remove(k), k2, v2, r) == three_map(l, k1, v1, m, k2, v2, r).remove(k),
        three_map(l, k1, v1, m, k2, v2, r).dom().contains(k) == m.dom().contains(k),
        m.dom().contains(k) ==> three_map(l, k1, v1, m, k2, v2, r)[k] == m[k],
{
    assert(!r.dom().contains(k));
    assert(!l.dom().contains(k));
    assert(three_map(l, k1, v1, m.remove(k), k2, v2, r) =~= three_map(l, k1, v1, m, k2, v2, r).remove(k));
}

/// Removing a key from the right subtree of a node with two entries.
proof fn lemma_rm_three_right<K: TreeKey, V>(l: Map<K, V>, k1: K, v1: V, m: Map<K, V>, k2: K, v2: V, r: Map<K, V>, k: K)
    requires
        k1.rank() < k2.rank() < k.rank(),
        keys_below(l, k1.rank()),
        keys_below(m, k2.rank()),
    ensures
        three_map(l, k1, v1, m, k2, v2, r.remove(k)) == three_map(l, k1, v1, m, k2, v2, r).remove(k),
        three_map(l, k1, v1, m, k2, v2, r).dom().contains(k) == r.dom().contains(k),
        r.dom().contains(k) ==> three_map(l, k1, v1, m, k2, v2, r)[k] == r[k],
{
    assert(!m.dom().contains(k));
    assert(!l.dom().contains(k));
    assert(three_map(l, k1, v1, m, k2, v2, r.remove(k)) =~= three_map(l, k1, v1, m, k2, v2, r).remove(k));
}

/// The least entry of the right subtree takes the place of the entry of a node
/// with one entry that is removed.
proof fn lemma_rm_two_root<K: TreeKey, V>(l: Map<K, V>, a: K, va: V, r: Map<K, V>, mk: K, mv: V)
    requires
        keys_below(l, a.rank()),
        keys_above(r, a.rank()),
        r.dom().contains(mk),
        r[mk] == mv,
    ensures
        two_map(l, mk, mv, r.remove(mk)) == two_map(l, a, va, r).remove(a),
        keys_below(l, mk.rank()),
{
    assert(!r.dom().contains(a));
    assert(!l.dom().contains(a));
    assert(two_map(l, mk, mv, r.remove(mk)) =~= two_map(l, a, va, r).remove(a));
}

/// The least entry of the middle subtree takes the place of the first entry of a
/// node with two entries that is removed.
proof fn lemma_rm_three_first<K: TreeKey, V>(l: Map<K, V>, k1: K, v1: V, m: Map<K, V>, k2: K, v2: V, r: Map<K, V>, mk: K, mv: V)
    requires
        k1.rank() < k2.rank(),
        keys_below(l, k1.rank()),
        keys_above(m, k1.rank()),
        keys_below(m, k2.rank()),
        keys_above(r, k2.rank()),
        m.dom().contains(mk),
        m[mk] == mv,
    ensures
        three_map(l, mk, mv, m.remove(mk), k2, v2, r) == three_map(l, k1, v1, m, k2, v2, r).remove(k1),
        keys_below(l, mk.rank()),
        mk.rank() < k2.rank(),
{
    assert(!r.dom().contains(k1));
    assert(!m.dom().contains(k1));
    assert(!l.dom().contains(k1));
    assert(three_map(l, mk, mv, m.remove(mk), k2, v2, r) =~= three_map(l, k1, v1, m, k2, v2, r).remove(k1));
}

/// The least entry of the right subtree takes the place of the second entry of a
/// node with two entries that is removed.
proof fn lemma_rm_three_second<K: TreeKey, V>(l: Map<K, V>, k1: K, v1: V, m: Map<K, V>, k2: K, v2: V, r: Map<K, V>, mk: K, mv: V)
    requires
        k1.rank() < k2.rank(),
        keys_below(l, k1.rank()),
        keys_above(m, k1.rank()),
        keys_below(m, k2.rank()),
        keys_above(r, k2.rank()),
        r.dom().contains(mk),
        r[mk] == mv,
    ensures
        three_map(l, k1, v1, m, mk, mv, r.remove(mk)) == three_map(l, k1, v1, m, k2, v2, r).remove(k2),
        keys_below(m, mk.rank()),
        k1.rank() < mk.rank(),
{
    assert(!r.dom().contains(k2));
    assert(!m.dom().contains(k2));
    assert(!l.dom().contains(k2));
    assert(three_map(l, k1, v1, m, mk, mv, r.remove(mk)) =~= three_map(l, k1, v1, m, k2, v2, r).remove(k2));
}

/// Takes the least entry out of a 2-3 tree; gives back what is left, whether it is
/// one level short, and the entry.
fn remove_min<K: TreeKey, V>(n: Box<B3Node<K, V>>) -> (r: (B3Link<K, V>, bool, K, V))
    requires
        b3_wf(Some(n)),
    ensures
        b3_wf(r.0),
        b3_map(Some(n)).dom().contains(r.2),
        b3_map(Some(n))[r.2] == r.3,
        b3_map(r.0) == b3_map(Some(n)).remove(r.2),
        keys_above(b3_map(r.0), r.2.rank()),
        b3_height(r.0) + (if r.1 { 1int } else { 0int }) == b3_height(Some(n)),
    decreases n,
{
    proof {
        lemma_empty::<K, V>();
    }
    let ghost whole = b3_map(Some(n));
    match *n {
        B3Node::Two { left, key, val, right } => {
            let ghost ml = b3_map(left);
            let ghost mr = b3_map(right);
            proof {
                lemma_height_zero(left);
                lemma_height_zero(right);
            }
            match left {
                None => {
                    proof {
                        assert(whole.remove(key) =~= Map::<K, V>::empty());
                    }
                    (None, true, key, val)
                },
                Some(ls) => {
                    let (nl, sh, mk, mv) = remove_min(ls);
                    proof {
                        lemma_rm_two_left(ml, key, val, mr, mk);
                        assert forall|q: K| #[trigger] whole.remove(mk).dom().contains(q) implies q.rank() > mk.rank() by {
                            if ml.dom().contains(q) {
                                assert(ml.remove(mk).dom().contains(q));
                            }
                        }
                    }
                    if sh {
                        let (t, sh2) = fix_two_left(nl, key, val, right);
                        (t, sh2, mk, mv)
                    } else {
                        (Some(Box::new(B3Node::Two { left: nl, key, val, right })), false, mk, mv)
                    }
                },
            }
        },
        B3Node::Three { left, k1, v1, mid, k2, v2, right } => {
            let ghost ml = b3_map(left);
            let ghost mm = b3_map(mid);
            let ghost mr = b3_map(right);
            proof {
                lemma_height_zero(left);
                lemma_height_zero(mid);
                lemma_height_zero(right);
            }
            match left {
                None => {
                    let t = Some(Box::new(B3Node::Two { left: None, key: k2, val: v2, right: None }));
                    proof {
                        assert(b3_map(t) =~= whole.remove(k1));
                    }
                    (t, false, k1, v1)
                },
                Some(ls) => {
                    let (nl, sh, mk, mv) = remove_min(ls);
                    proof {
                        lemma_rm_three_left(ml, k1, v1, mm, k2, v2, mr, mk);
                        assert forall|q: K| #[trigger] whole.remove(mk).dom().contains(q) implies q.rank() > mk.rank() by {
                            if ml.dom().contains(q) {
                                assert(ml.remove(mk).dom().contains(q));
                            }
                        }
                    }
                    if sh {
                        (fix_three_left(nl, k1, v1, mid, k2, v2, right), false, mk, mv)
                    } else {
                        (Some(Box::new(B3Node::Three { left: nl, k1, v1, mid, k2, v2, right })), false, mk, mv)
                    }
                },
            }
        },
    }
}

/// Removes `k` from below `link`; gives back what is left, whether it is one
/// level short, and the value `k` had.
fn del<K: TreeKey, V>(link: B3Link<K, V>, k: &K) -> (r: (B3Link<K, V>, bool, Option<V>))
    requires
        b3_wf(link),
    ensures
        b3_wf(r.0),
        b3_map(r.0) == b3_map(link).remove(*k),
        r.2 == (if b3_map(link).dom().contains(*k) { Some(b3_map(link)[*k]) } else { None }),
        b3_height(r.0) + (if r.1 { 1int } else { 0int }) == b3_height(link),
    decreases link,
{
    proof {
        lemma_empty::<K, V>();
    }
    match link {
        None => {
            proof {
                assert(Map::<K, V>::empty().remove(*k) =~= Map::<K, V>::empty());
            }
            (None, false, None)
        },
        Some(node) => {
            let ghost whole = b3_map(Some(node));
            match *node {
                B3Node::Two { left, key, val, right } => {
                    let ghost ml = b3_map(left);
                    let ghost mr = b3_map(right);
                    proof {
                        lemma_height_zero(left);
                        lemma_height_zero(right);
                    }
                    match k.compare(&key) {
                        KeyOrder::Less => {
                            let (nl, sh, p) = del(left, k);
                            proof {
                                lemma_rm_two_left(ml, key, val, mr, *k);
                            }
                            if sh {
                                let (t, sh2) = fix_two_left(nl, key, val, right);
                                (t, sh2, p)
                            } else {
                                (Some(Box::new(B3Node::Two { left: nl, key, val, right })), false, p)
                            }
                        },
                        KeyOrder::Greater => {
                            let (nr, sh, p) = del(right, k);
                            proof {
                                lemma_rm_two_right(ml, key, val, mr, *k);
                            }
                            if sh {
                                let (t, sh2) = fix_two_right(left, key, val, nr);
                                (t, sh2, p)
                            } else {
                                (Some(Box::new(B3Node::Two { left, key, val, right: nr })), false, p)
                            }
                        },
                        KeyOrder::Equal => {
                            proof {
                                K::lemma_rank_injective(*k, key);
                            }
                            match right {
                                None => {
                                    proof {
                                        assert(whole.remove(key) =~= Map::<K, V>::empty());
                                    }
                                    (None, true, Some(val))
                                },
                                Some(rs) => {
                                    let (nr, sh, mk, mv) = remove_min(rs);
                                    proof {
                                        lemma_rm_two_root(ml, key, val, mr, mk, mv);
                                    }
                                    if sh {
                                        let (t, sh2) = fix_two_right(left, mk, mv, nr);
                                        (t, sh2, Some(val))
                                    } else {
                                        (Some(Box::new(B3Node::Two { left, key: mk, val: mv, right: nr })), false, Some(val))
                                    }
                                },
                            }
                        },
                    }
                },
                B3Node::Three { left, k1, v1, mid, k2, v2, right } => {
                    let ghost ml = b3_map(left);
                    let ghost mm = b3_map(mid);
                    let ghost mr = b3_map(right);
                    proof {
                        lemma_height_zero(left);
                        lemma_height_zero(mid);
                        lemma_height_zero(right);
                    }
                    match k.compare(&k1) {
                        KeyOrder::Less => {
                            let (nl, sh, p) = del(left, k);
                            proof {
                                lemma_rm_three_left(ml, k1, v1, mm, k2, v2, mr, *k);
                            }
                            if sh {
                                (fix_three_left(nl, k1, v1, mid, k2, v2, right), false, p)
                            } else {
                                (Some(Box::new(B3Node::Three { left: nl, k1, v1, mid, k2, v2, right })), false, p)
                            }
                        },
                        KeyOrder::Equal => {
                            proof {
                                K::lemma_rank_injective(*k, k1);
                            }
                            match mid {
                                None => {
                                    let t = Some(Box::new(B3Node::Two { left: None, key: k2, val: v2, right: None }));
                                    proof {
                                        assert(b3_map(t) =~= whole.remove(k1));
                                    }
                                    (t, false, Some(v1))
                                },
                                Some(ms) => {
                                    let (nm, sh, mk, mv) = remove_min(ms);
                                    proof {
                                        lemma_rm_three_first(ml, k1, v1, mm, k2, v2, mr, mk, mv);
                                        assert forall|q: K| #[trigger] b3_map(nm).dom().contains(q) implies q.rank() < k2.rank() by {
                                            assert(mm.dom().contains(q));
                                        }
                                    }
                                    if sh {
                                        (fix_three_mid(left, mk, mv, nm, k2, v2, right), false, Some(v1))
                                    } else {
                                        (Some(Box::new(B3Node::Three { left, k1: mk, v1: mv, mid: nm, k2, v2, right })), false, Some(v1))
                                    }
                                },
                            }
                        },
                        KeyOrder::Greater => match k.compare(&k2) {
                            KeyOrder::Less => {
                                let (nm, sh, p) = del(mid, k);
                                proof {
                                    lemma_rm_three_mid(ml, k1, v1, mm, k2, v2, mr, *k);
                                    assert forall|q: K| #[trigger] b3_map(nm).dom().contains(q) implies k1.rank() < q.rank() < k2.rank() by {
                                        assert(mm.dom().contains(q));
                                    }
                                }
                                if sh {
                                    (fix_three_mid(left, k1, v1, nm, k2, v2, right), false, p)
                                } else {
                                    (Some(Box::new(B3Node::Three { left, k1, v1, mid: nm, k2, v2, right })), false, p)
                                }
                            },
                            KeyOrder::Equal => {
                                proof {
                                    K::lemma_rank_injective(*k, k2);
                                }
                                match right {
                                    None => {
                                        let t = Some(Box::new(B3Node::Two { left: None, key: k1, val: v1, right: None }));
                                        proof {
                                            assert(b3_map(t) =~= whole.remove(k2));
                                        }
                                        (t, false, Some(v2))
                                    },
                                    Some(rs) => {
                                        let (nr, sh, mk, mv) = remove_min(rs);
                                        proof {
                                            lemma_rm_three_second(ml, k1, v1, mm, k2, v2, mr, mk, mv);
                                        }
                                        if sh {
                                            (fix_three_right(left, k1, v1, mid, mk, mv, nr), false, Some(v2))
                                        } else {
                                            (Some(Box::new(B3Node::Three { left, k1, v1, mid, k2: mk, v2: mv, right: nr })), false, Some(v2))
                                        }
                                    },
                                }
                            },
                            KeyOrder::Greater => {
                                let (nr, sh, p) = del(right, k);
                                proof {
                                    lemma_rm_three_right(ml, k1, v1, mm, k2, v2, mr, *k);
                                    assert forall|q: K| #[trigger] b3_map(nr).dom().contains(q) implies q.rank() > k2.rank() by {
                                        assert(mr.dom().contains(q));
                                    }
                                }
                                if sh {
                                    (fix_three_right(left, k1, v1, mid, k2, v2, nr), false, p)
                                } else {
                                    (Some(Box::new(B3Node::Three { left, k1, v1, mid, k2, v2, right: nr })), false, p)
                                }
                            },
                        },
                    }
                },
            }
        },
    }
}

/// Sets the value of `k` below `link` where it is held; tells whether it was.
fn b3_set<K: TreeKey, V>(link: B3Link<K, V>, k: &K, v: V) -> (r: (B3Link<K, V>, bool))
    requires
        b3_wf(link),
    ensures
        r.1 == b3_map(link).dom().contains(*k),
        b3_map(r.0) == (if r.1 { b3_map(link).insert(*k, v) } else { b3_map(link) }),
        b3_wf(r.0),
        b3_height(r.0) == b3_height(link),
    decreases link,
{
    match link {
        None => (None, false),
        Some(node) => {
            let ghost whole = b3_map(Some(node));
            match *node {
                B3Node::Two { left, key, val, right } => {
                    let ghost ml = b3_map(left);
                    let ghost mr = b3_map(right);
                    match k.compare(&key) {
                        KeyOrder::Less => {
                            let (nl, found) = b3_set(left, k, v);
                            proof {
                                lemma_rm_two_left(ml, key, val, mr, *k);
                                if found {
                                    lemma_ins_two_left(ml, key, val, mr, *k, v);
                                }
                            }
                            (Some(Box::new(B3Node::Two { left: nl, key, val, right })), found)
                        },
                        KeyOrder::Greater => {
                            let (nr, found) = b3_set(right, k, v);
                            proof {
                                lemma_rm_two_right(ml, key, val, mr, *k);
                                if found {
                                    lemma_ins_two_right(ml, key, val, mr, *k, v);
                                }
                            }
                            (Some(Box::new(B3Node::Two { left, key, val, right: nr })), found)
                        },
                        KeyOrder::Equal => {
                            proof {
                                K::lemma_rank_injective(*k, key);
                            }
                            let n = Some(Box::new(B3Node::Two { left, key, val: v, right }));
                            proof {
                                assert(b3_map(n) =~= whole.insert(*k, v));
                            }
                            (n, true)
                        },
                    }
                },
                B3Node::Three { left, k1, v1, mid, k2, v2, right } => {
                    let ghost ml = b3_map(left);
                    let ghost mm = b3_map(mid);
                    let ghost mr = b3_map(right);
                    match k.compare(&k1) {
                        KeyOrder::Less => {
                            let (nl, found) = b3_set(left, k, v);
                            proof {
                                lemma_rm_three_left(ml, k1, v1, mm, k2, v2, mr, *k);
                                if found {
                                    lemma_ins_three_left(ml, k1, v1, mm, k2, v2, mr, *k, v);
                                }
                            }
                            (Some(Box::new(B3Node::Three { left: nl, k1, v1, mid, k2, v2, right })), found)
                        },
                        KeyOrder::Equal => {
                            proof {
                                K::lemma_rank_injective(*k, k1);
                            }
                            let n = Some(Box::new(B3Node::Three { left, k1, v1: v, mid, k2, v2, right }));
                            proof {
                                assert(b3_map(n) =~= whole.insert(*k, v));
                            }
                            (n, true)
                        },
                        KeyOrder::Greater => match k.compare(&k2) {
                            KeyOrder::Less => {
                                let (nm, found) = b3_set(mid, k, v);
                                proof {
                                    lemma_rm_three_mid(ml, k1, v1, mm, k2, v2, mr, *k);
                                    if found {
                                        lemma_ins_three_mid(ml, k1, v1, mm, k2, v2, mr, *k, v);
                                    }
                                }
                                (Some(Box::new(B3Node::Three { left, k1, v1, mid: nm, k2, v2, right })), found)
                            },
                            KeyOrder::Equal => {
                                proof {
                                    K::lemma_rank_injective(*k, k2);
                                }
                                let n = Some(Box::new(B3Node::Three { left, k1, v1, mid, k2, v2: v, right }));
                                proof {
                                    assert(b3_map(n) =~= whole.insert(*k, v));
                                }
                                (n, true)
                            },
                            KeyOrder::Greater => {
                                let (nr, found) = b3_set(right, k, v);
                                proof {
                                    lemma_rm_three_right(ml, k1, v1, mm, k2, v2, mr, *k);
                                    if found {
                                        lemma_ins_three_right(ml, k1, v1, mm, k2, v2, mr, *k, v);
                                    }
                                }
                                (Some(Box::new(B3Node::Three { left, k1, v1, mid, k2, v2, right: nr })), found)
                            },
                        },
                    }
                },
            }
        },
    }
}

/// An ordered map kept as a 2-3 tree.
pub struct B3<K: TreeKey, V> {
    root: B3Link<K, V>,
}

impl<K: TreeKey, V> B3<K, V> {
    #[verifier::type_invariant]
    spec fn well_formed(self) -> bool {
        b3_wf(self.root)
    }

    /// The map the tree holds.
    pub closed spec fn map(self) -> Map<K, V> {
        b3_map(self.root)
    }
}

impl<K: TreeKey, V> View for B3<K, V> {
    type V = Map<K, V>;

    open spec fn view(&self) -> Map<K, V> {
        self.map()
    }
}

impl<K: TreeKey, V> B3<K, V> {
    /// The empty map.
    pub fn new() -> (r: Self)
        ensures
            r@ == Map::<K, V>::empty(),
    {
        proof {
            lemma_empty::<K, V>();
        }
        B3 { root: None }
    }

    /// The tree holding the pairs of `seq`, whose keys rank in strictly increasing
    /// order; each goes in after the greatest key held so far.
    pub fn bulk_load(seq: Vec<(K, V)>) -> (r: Self)
        requires
            forall|i: int, j: int| 0 <= i < j < seq@.len() ==> seq@[i].0.rank() < seq@[j].0.rank(),
        ensures
            r@ == pairs_map(seq@, seq@.len()),
    {
        let ghost s = seq@;
        let mut b3 = B3::new();
        let mut src = seq;
        let mut rest: Vec<(K, V)> = Vec::new();
        while src.len() > 0
            invariant
                src.len() + rest.len() == s.len(),
                forall|i: int| 0 <= i < src.len() ==> src@[i] == s[i],
                forall|i: int| 0 <= i < rest.len() ==> rest@[i] == s[s.len() - 1 - i],
            decreases src.len(),
        {
            let item = src.pop().unwrap();
            rest.push(item);
        }
        let ghost n: nat = s.len();
        while rest.len() > 0
            invariant
                n == s.len(),
                rest.len() <= n,
                forall|i: int| 0 <= i < rest.len() ==> rest@[i] == s[n - 1 - i],
                b3@ == pairs_map(s, (n - rest.len()) as nat),
                forall|i: int, j: int| 0 <= i < j < s.len() ==> s[i].0.rank() < s[j].0.rank(),
            decreases rest.len(),
        {
            let ghost done: nat = (n - rest.len()) as nat;
            let (k, v) = rest.pop().unwrap();
            proof {
                assert((k, v) == s[done as int]);
                assert(pairs_map(s, done + 1) == pairs_map(s, done).insert(k, v));
                lemma_pairs_map_keys(s, done);
                if pairs_map(s, done).dom().contains(k) {
                    let i = choose|i: int| 0 <= i < done && #[trigger] s[i].0 == k;
                    assert(s[i].0.rank() < s[done as int].0.rank());
                }
            }
            b3.insert(k, v);
        }
        b3
    }

    /// The value held for `key`, if any.
    pub fn lookup(&self, key: &K) -> (r: Option<&V>)
        ensures
            r == (if self@.dom().contains(*key) { Some(&self@[*key]) } else { None }),
    {
        proof {
            use_type_invariant(self);
        }
        b3_get(&self.root, key)
    }

    /// Adds `key -> value` where `key` is absent; tells whether it did.
    pub fn insert(&mut self, key: K, value: V) -> (r: bool)
        ensures
            r == !old(self)@.dom().contains(key),
            final(self)@ == (if r { old(self)@.insert(key, value) } else { old(self)@ }),
    {
        proof {
            use_type_invariant(&*self);
        }
        if b3_get(&self.root, &key).is_some() {
            return false;
        }
        let mut root = None;
        std::mem::swap(&mut root, &mut self.root);
        match ins(root, key, value) {
            Grown::Fit(n) => {
                self.root = Some(n);
            },
            Grown::Split(x, k, v, y) => {
                self.root = Some(Box::new(B3Node::Two { left: x, key: k, val: v, right: y }));
            },
        }
        true
    }

    /// Removes `key`; gives back its value, if it had one.
    pub fn remove(&mut self, key: &K) -> (r: Option<V>)
        ensures
            final(self)@ == old(self)@.remove(*key),
            r == (if old(self)@.dom().contains(*key) { Some(old(self)@[*key]) } else { None }),
    {
        proof {
            use_type_invariant(&*self);
        }
        let mut root = None;
        std::mem::swap(&mut root, &mut self.root);
        let (t, _short, popped) = del(root, key);
        self.root = t;
        popped
    }

    /// Sets the value of `key` where it is present; tells whether it was.
    pub fn modify(&mut self, key: &K, value: V) -> (r: bool)
        ensures
            r == old(self)@.dom().contains(*key),
            final(self)@ == (if r { old(self)@.insert(*key, value) } else { old(self)@ }),
    {
        proof {
            use_type_invariant(&*self);
        }
        let mut root = None;
        std::mem::swap(&mut root, &mut self.root);
        let (t, found) = b3_set(root, key, value);
        self.root = t;
        found
    }
}

} // verus!

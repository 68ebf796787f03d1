//! Treaps: search trees whose nodes also carry a random weight, kept in heap
//! order (no node weighs less than its children) by splitting and joining.

use vstd::prelude::*;
use vstd::multiset::Multiset;
use crate::tree::{
    TreeKey, KeyOrder, TreeNode, link_map, link_ordered, link_size, link_get, link_modify,
    lemma_node_lookup, same_shape,
};

verus! {

/// A node of a treap; its balancing data is its weight.
pub type TreapNode<K, V> = TreeNode<K, V, u64>;

/// A subtree of a treap.
pub type TreapLink<K, V> = Option<Box<TreapNode<K, V>>>;

impl<K, V> TreapNode<K, V> {
    /// A node of weight `weight` holding `key -> value`.
    pub fn new(key: K, value: V, weight: u64) -> (r: Self)
        ensures
            r.key == key,
            r.val == value,
            r.aux == weight,
            r.left is None,
            r.right is None,
    {
        TreeNode::leaf(key, value, weight)
    }
}

/// A weight drawn by `rand::random`.
#[verifier::external_body]
fn random_weight() -> u64 {
    rand::random::<u64>()
}

/// The weight at the root of a subtree, 0 for the empty one.
pub open spec fn top_weight<K, V>(l: TreapLink<K, V>) -> u64 {
    match l {
        None => 0,
        Some(n) => n.aux,
    }
}

/// Heap order: no node weighs less than either of its children.
pub open spec fn heap_ordered<K, V>(l: TreapLink<K, V>) -> bool
    decreases l,
{
    match l {
        None => true,
        Some(n) => {
            &&& heap_ordered(n.left)
            &&& heap_ordered(n.right)
            &&& top_weight(n.left) <= n.aux
            &&& top_weight(n.right) <= n.aux
        },
    }
}

/// The weights of the nodes of a subtree, counted with their multiplicity.
pub open spec fn link_weights<K, V>(l: TreapLink<K, V>) -> Multiset<u64>
    decreases l,
{
    match l {
        None => Multiset::empty(),
        Some(n) => link_weights(n.left).add(link_weights(n.right)).insert(n.aux),
    }
}

/// In heap order no node weighs more than the root.
proof fn lemma_heap_top<K, V>(l: TreapLink<K, V>, x: u64)
    requires
        heap_ordered(l),
        link_weights(l).count(x) > 0,
    ensures
        x <= top_weight(l),
    decreases l,
{
    match l {
        None => {},
        Some(n) => {
            if x != n.aux {
                if link_weights(n.left).count(x) > 0 {
                    lemma_heap_top(n.left, x);
                } else {
                    lemma_heap_top(n.right, x);
                }
            }
        },
    }
}

/// Subtrees of the same shape and weights are heap-ordered alike.
proof fn lemma_same_shape_heap<K, V>(a: TreapLink<K, V>, b: TreapLink<K, V>)
    requires
        same_shape(a, b),
    ensures
        heap_ordered(a) == heap_ordered(b),
        top_weight(a) == top_weight(b),
    decreases a,
{
    match (a, b) {
        (Some(x), Some(y)) => {
            lemma_same_shape_heap(x.left, y.left);
            lemma_same_shape_heap(x.right, y.right);
        },
        _ => {},
    }
}

/// Checks heap order at every node of a subtree.
fn check_heap<K, V>(l: &TreapLink<K, V>) -> (r: bool)
    ensures
        r == heap_ordered(*l),
    decreases *l,
{
    match l {
        None => true,
        Some(n) => {
            let wl = match &n.left {
                Some(c) => c.aux,
                None => 0,
            };
            let wr = match &n.right {
                Some(c) => c.aux,
                None => 0,
            };
            wl <= n.aux && wr <= n.aux && check_heap(&n.left) && check_heap(&n.right)
        },
    }
}

/// Every key of `a` ranks below every key of `b`.
pub open spec fn keys_before<K: TreeKey, V>(a: Map<K, V>, b: Map<K, V>) -> bool {
    forall|p: K, q: K| #[trigger] a.dom().contains(p) && #[trigger] b.dom().contains(q) ==> p.rank() < q.rank()
}

/// Splits `t` into the keys ranking at most `key` and those ranking above it.
fn split<K: TreeKey, V>(t: TreapLink<K, V>, key: &K) -> (r: (TreapLink<K, V>, TreapLink<K, V>))
    requires
        link_ordered(t),
    ensures
        link_ordered(r.0),
        link_ordered(r.1),
        forall|q: K| #[trigger] link_map(r.0).dom().contains(q) ==> q.rank() <= key.rank(),
        forall|q: K| #[trigger] link_map(r.1).dom().contains(q) ==> q.rank() > key.rank(),
        link_map(r.0).union_prefer_right(link_map(r.1)) == link_map(t),
        link_size(r.0) + link_size(r.1) == link_size(t),
        heap_ordered(t) ==> heap_ordered(r.0) && heap_ordered(r.1),
        heap_ordered(t) ==> top_weight(r.0) <= top_weight(t) && top_weight(r.1) <= top_weight(t),
    decreases t,
{
    match t {
        None => {
            proof {
                assert(Map::<K, V>::empty().union_prefer_right(Map::empty()) =~= Map::empty());
            }
            (None, None)
        },
        Some(node) => {
            let ghost old_node = *node;
            let TreeNode { key: nk, val, aux, left, right } = *node;
            if matches!(key.compare(&nk), KeyOrder::Less) {
                let (lf, part_rh) = split(left, key);
                let n = Box::new(TreeNode { key: nk, val, aux, left: part_rh, right });
                proof {
                    assert forall|q: K| #[trigger] link_map(part_rh).dom().contains(q) implies q.rank() < nk.rank() by {
                        assert(link_map(part_rh).dom().contains(q) ==> link_map(left).dom().contains(q));
                    }
                    assert(n.node_ordered());
                    assert forall|q: K| #[trigger] link_map(Some(n)).dom().contains(q) implies q.rank() > key.rank() by {
                        if q != nk && !link_map(part_rh).dom().contains(q) {
                            assert(link_map(right).dom().contains(q));
                        }
                    }
                    assert forall|q: K| #[trigger] link_map(lf).dom().contains(q) implies !link_map(Some(n)).dom().contains(q) by {
                    }
                    assert(link_map(lf).union_prefer_right(link_map(Some(n))) =~= old_node.node_map());
                }
                (lf, Some(n))
            } else {
                let (part_lf, rh) = split(right, key);
                let n = Box::new(TreeNode { key: nk, val, aux, left, right: part_lf });
                proof {
                    assert forall|q: K| #[trigger] link_map(part_lf).dom().contains(q) implies q.rank() > nk.rank() by {
                        assert(link_map(part_lf).dom().contains(q) ==> link_map(right).dom().contains(q));
                    }
                    assert(n.node_ordered());
                    assert forall|q: K| #[trigger] link_map(Some(n)).dom().contains(q) implies q.rank() <= key.rank() by {
                        if q != nk && !link_map(part_lf).dom().contains(q) {
                            assert(link_map(left).dom().contains(q));
                        }
                    }
                    assert(link_map(Some(n)).union_prefer_right(link_map(rh)) =~= old_node.node_map());
                }
                (Some(n), rh)
            }
        },
    }
}

/// Merges `u` and `v`, all of whose keys rank above those of `u`, putting the
/// heavier root on top.
fn join<K: TreeKey, V>(u: TreapLink<K, V>, v: TreapLink<K, V>) -> (r: TreapLink<K, V>)
    requires
        link_ordered(u),
        link_ordered(v),
        keys_before(link_map(u), link_map(v)),
    ensures
        link_ordered(r),
        link_map(r) == link_map(u).union_prefer_right(link_map(v)),
        link_size(r) == link_size(u) + link_size(v),
        heap_ordered(u) && heap_ordered(v) ==> heap_ordered(r),
        top_weight(r) == (if top_weight(u) > top_weight(v) { top_weight(u) } else { top_weight(v) }),
        link_weights(r) == link_weights(u).add(link_weights(v)),
    decreases link_size(u) + link_size(v),
{
    match u {
        None => {
            proof {
                assert(link_map(u).union_prefer_right(link_map(v)) =~= link_map(v));
                assert(link_weights(u).add(link_weights(v)) =~= link_weights(v));
            }
            v
        },
        Some(un) => match v {
            None => {
                proof {
                    assert(link_map(Some(un)).union_prefer_right(link_map(v)) =~= link_map(Some(un)));
                    assert(link_weights(Some(un)).add(link_weights(v)) =~= link_weights(Some(un)));
                }
                Some(un)
            },
            Some(vn) => {
                let ghost ug = *un;
                let ghost vg = *vn;
                proof {
                    lemma_node_lookup(ug, ug.key);
                    lemma_node_lookup(vg, vg.key);
                }
                if un.aux > vn.aux {
                    let TreeNode { key, val, aux, left, right } = *un;
                    proof {
                        assert forall|p: K, q: K| #[trigger] link_map(right).dom().contains(p) && #[trigger] link_map(Some(vn)).dom().contains(q) implies p.rank() < q.rank() by {
                            assert(ug.node_map().dom().contains(p));
                        }
                    }
                    let j = join(right, Some(vn));
                    let n = Box::new(TreeNode { key, val, aux, left, right: j });
                    proof {
                        assert forall|q: K| #[trigger] link_map(j).dom().contains(q) implies q.rank() > key.rank() by {
                            if !link_map(right).dom().contains(q) {
                                assert(vg.node_map().dom().contains(q));
                            }
                        }
                        assert(n.node_ordered());
                        assert(link_map(Some(n)) =~= ug.node_map().union_prefer_right(vg.node_map()));
                        assert(link_weights(Some(n)) =~= link_weights(Some(Box::new(ug))).add(link_weights(Some(Box::new(vg)))));
                    }
                    Some(n)
                } else {
                    let TreeNode { key, val, aux, left, right } = *vn;
                    proof {
                        assert forall|p: K, q: K| #[trigger] link_map(Some(un)).dom().contains(p) && #[trigger] link_map(left).dom().contains(q) implies p.rank() < q.rank() by {
                            assert(vg.node_map().dom().contains(q));
                        }
                    }
                    let j = join(Some(un), left);
                    let n = Box::new(TreeNode { key, val, aux, left: j, right });
                    proof {
                        assert forall|q: K| #[trigger] link_map(j).dom().contains(q) implies q.rank() < key.rank() by {
                            if !link_map(left).dom().contains(q) {
                                assert(ug.node_map().dom().contains(q));
                            }
                        }
                        assert(n.node_ordered());
                        assert(link_map(Some(n)) =~= ug.node_map().union_prefer_right(vg.node_map()));
                        assert(link_weights(Some(n)) =~= link_weights(Some(Box::new(ug))).add(link_weights(Some(Box::new(vg)))));
                    }
                    Some(n)
                }
            },
        },
    }
}

/// The greatest key of `t` ranking below `key`, if any.
fn predecessor<K: TreeKey, V>(t: &TreapLink<K, V>, key: &K) -> (r: Option<K>)
    requires
        link_ordered(*t),
    ensures
        match r {
            Some(p) => link_map(*t).dom().contains(p) && p.rank() < key.rank() && forall|q: K|
                #[trigger] link_map(*t).dom().contains(q) && q.rank() < key.rank() ==> q.rank() <= p.rank(),
            None => forall|q: K| #[trigger] link_map(*t).dom().contains(q) ==> q.rank() >= key.rank(),
        },
    decreases *t,
{
    match t {
        None => None,
        Some(n) => {
            proof {
                lemma_node_lookup(**n, n.key);
            }
            if matches!(n.key.compare(key), KeyOrder::Less) {
                match predecessor(&n.right, key) {
                    Some(p) => {
                        proof {
                            lemma_node_lookup(**n, p);
                            assert forall|q: K| #[trigger] link_map(*t).dom().contains(q) && q.rank() < key.rank() implies q.rank() <= p.rank() by {
                                lemma_node_lookup(**n, q);
                            }
                        }
                        Some(p)
                    },
                    None => {
                        proof {
                            assert forall|q: K| #[trigger] link_map(*t).dom().contains(q) && q.rank() < key.rank() implies q.rank() <= n.key.rank() by {
                                lemma_node_lookup(**n, q);
                            }
                        }
                        Some(n.key)
                    },
                }
            } else {
                let r = predecessor(&n.left, key);
                proof {
                    assert forall|q: K| #[trigger] link_map(*t).dom().contains(q) && q.rank() < key.rank() implies link_map(n.left).dom().contains(q) by {
                        lemma_node_lookup(**n, q);
                    }
                    match r {
                        Some(p) => {
                            lemma_node_lookup(**n, p);
                        },
                        None => {},
                    }
                }
                r
            }
        },
    }
}

/// An ordered map kept as a treap.
pub struct Treap<K: TreeKey, V> {
    root: TreapLink<K, V>,
}

impl<K: TreeKey, V> Treap<K, V> {
    #[verifier::type_invariant]
    spec fn well_formed(self) -> bool {
        link_ordered(self.root) && heap_ordered(self.root)
    }

    /// The map the treap holds.
    pub closed spec fn map(self) -> Map<K, V> {
        link_map(self.root)
    }

    /// Heap order: no node weighs less than either of its children.
    pub closed spec fn heap_ordered(self) -> bool {
        heap_ordered(self.root)
    }
}

impl<K: TreeKey, V> View for Treap<K, V> {
    type V = Map<K, V>;

    open spec fn view(&self) -> Map<K, V> {
        self.map()
    }
}

impl<K: TreeKey, V> Treap<K, V> {
    /// The empty map.
    pub fn new() -> (r: Self)
        ensures
            r@ == Map::<K, V>::empty(),
            r.heap_ordered(),
    {
        Treap { root: None }
    }

    /// Whether the map is empty.
    pub fn is_empty(&self) -> (r: bool)
        ensures
            r == (self@ == Map::<K, V>::empty()),
    {
        proof {
            use_type_invariant(self);
            if self.root is Some {
                lemma_node_lookup(*self.root->0, self.root->0.key);
            }
            if self.root is None {
                assert(self@ =~= Map::<K, V>::empty());
            }
        }
        self.root.is_none()
    }

    /// Adds `key -> value` with weight `weight` where `key` is absent: splits at
    /// `key` and joins the parts around the new node. Tells whether it added.
    pub fn insert_with_weight(&mut self, key: K, value: V, weight: u64) -> (r: bool)
        ensures
            r == !old(self)@.dom().contains(key),
            final(self)@ == (if r { old(self)@.insert(key, value) } else { old(self)@ }),
            final(self).heap_ordered(),
    {
        proof {
            use_type_invariant(&*self);
        }
        if link_get(&self.root, &key).is_some() {
            return false;
        }
        let mut root = None;
        std::mem::swap(&mut root, &mut self.root);
        let ghost m0 = link_map(root);
        let (lf, rh) = split(root, &key);
        let node = Box::new(TreapNode::new(key, value, weight));
        proof {
            lemma_node_lookup(*node, key);
            assert forall|p: K, q: K| #[trigger] link_map(lf).dom().contains(p) && #[trigger] link_map(Some(node)).dom().contains(q) implies p.rank() < q.rank() by {
                assert(q == key);
                if p.rank() == key.rank() {
                    K::lemma_rank_injective(p, key);
                    assert(m0.dom().contains(p));
                }
            }
        }
        let lf2 = join(lf, Some(node));
        proof {
            assert forall|p: K, q: K| #[trigger] link_map(lf2).dom().contains(p) && #[trigger] link_map(rh).dom().contains(q) implies p.rank() < q.rank() by {
                if !link_map(lf).dom().contains(p) {
                    assert(p == key);
                }
            }
        }
        let t = join(lf2, rh);
        proof {
            assert(link_map(t) =~= m0.insert(key, value));
        }
        self.root = t;
        true
    }

    /// Adds `key -> value` with a random weight where `key` is absent; tells whether it did.
    pub fn insert(&mut self, key: K, value: V) -> (r: bool)
        ensures
            r == !old(self)@.dom().contains(key),
            final(self)@ == (if r { old(self)@.insert(key, value) } else { old(self)@ }),
            final(self).heap_ordered(),
    {
        let w = random_weight();
        self.insert_with_weight(key, value, w)
    }

    /// Removes `key` by splitting off the keys up to its predecessor and the keys
    /// above it and joining those; gives back its value, if it had one.
    pub fn remove(&mut self, key: &K) -> (r: Option<V>)
        ensures
            final(self)@ == old(self)@.remove(*key),
            r == (if old(self)@.dom().contains(*key) { Some(old(self)@[*key]) } else { None }),
            final(self).heap_ordered(),
    {
        proof {
            use_type_invariant(&*self);
        }
        if link_get(&self.root, key).is_none() {
            proof {
                assert(old(self)@.remove(*key) =~= old(self)@);
            }
            return None;
        }
        let pred = predecessor(&self.root, key);
        let mut root = None;
        std::mem::swap(&mut root, &mut self.root);
        let ghost m0 = link_map(root);
        let (lower, mid, rest) = match pred {
            None => {
                let (mid, rest) = split(root, key);
                (None, mid, rest)
            },
            Some(p) => {
                let (lower, upper) = split(root, &p);
                let (mid, rest) = split(upper, key);
                (lower, mid, rest)
            },
        };
        proof {
            assert(link_map(mid) =~= Map::<K, V>::empty().insert(*key, m0[*key])) by {
                assert forall|q: K| #[trigger] link_map(mid).dom().contains(q) implies q == *key by {
                    assert(m0.dom().contains(q));
                    if q.rank() != key.rank() {
                        match pred {
                            Some(p) => {
                                assert(q.rank() <= p.rank());
                            },
                            None => {},
                        }
                    }
                    K::lemma_rank_injective(q, *key);
                }
                assert(link_map(mid).dom().contains(*key)) by {
                    match pred {
                        Some(p) => {
                            assert(!link_map(lower).dom().contains(*key));
                        },
                        None => {},
                    }
                    assert(!link_map(rest).dom().contains(*key));
                }
            }
            assert forall|p: K, q: K| #[trigger] link_map(lower).dom().contains(p) && #[trigger] link_map(rest).dom().contains(q) implies p.rank() < q.rank() by {
            }
        }
        let value = match mid {
            Some(m) => {
                proof {
                    lemma_node_lookup(*m, m.key);
                }
                let TreeNode { key: _, val, aux: _, left: _, right: _ } = *m;
                val
            },
            None => {
                proof {
                    assert(false);
                }
                self.root = join(lower, rest);
                return None;
            },
        };
        let t = join(lower, rest);
        proof {
            assert(link_map(t) =~= m0.remove(*key));
        }
        self.root = t;
        Some(value)
    }

    /// Sets the value of `key` where it is present; tells whether it was.
    pub fn modify(&mut self, key: &K, value: V) -> (r: bool)
        ensures
            r == old(self)@.dom().contains(*key),
            final(self)@ == (if r { old(self)@.insert(*key, value) } else { old(self)@ }),
            final(self).heap_ordered(),
    {
        proof {
            use_type_invariant(&*self);
        }
        let mut root = None;
        std::mem::swap(&mut root, &mut self.root);
        let (n, old_value) = link_modify(root, key, value);
        proof {
            lemma_same_shape_heap(n, root);
        }
        self.root = n;
        old_value.is_some()
    }

    /// Checks heap order at every node: `Ok` exactly when it holds, which is
    /// always.
    pub fn self_validate(&self) -> (r: Result<(), ()>)
        ensures
            r is Ok <==> self.heap_ordered(),
            r is Ok,
    {
        proof {
            use_type_invariant(self);
        }
        if check_heap(&self.root) {
            Ok(())
        } else {
            Err(())
        }
    }

    /// The value held for `key`, if any.
    pub fn lookup(&self, key: &K) -> (r: Option<&V>)
        ensures
            r == (if self@.dom().contains(*key) { Some(&self@[*key]) } else { None }),
    {
        proof {
            use_type_invariant(self);
        }
        link_get(&self.root, key)
    }
}

/// The greatest key of a search tree keyed by `u64`, if it has any.
fn max_key<V>(t: &TreapLink<u64, V>) -> (r: Option<u64>)
    requires
        link_ordered(*t),
    ensures
        r is None <==> t is None,
        r matches Some(k) ==> link_map(*t).dom().contains(k)
            && forall|q: u64| #[trigger] link_map(*t).dom().contains(q) ==> q <= k,
    decreases *t,
{
    match t {
        None => None,
        Some(n) => {
            proof {
                lemma_node_lookup(**n, n.key);
            }
            match max_key(&n.right) {
                Some(k) => {
                    proof {
                        lemma_node_lookup(**n, k);
                        assert forall|q: u64| #[trigger] link_map(*t).dom().contains(q) implies q <= k by {
                            lemma_node_lookup(**n, q);
                        }
                    }
                    Some(k)
                },
                None => {
                    proof {
                        assert forall|q: u64| #[trigger] link_map(*t).dom().contains(q) implies q <= n.key by {
                            lemma_node_lookup(**n, q);
                        }
                    }
                    Some(n.key)
                },
            }
        },
    }
}

impl Treap<u64, ()> {
    /// The weights held, counted with their multiplicity.
    pub closed spec fn weights(self) -> Multiset<u64> {
        link_weights(self.root)
    }

    /// The greatest weight held, if any: the weight at the root.
    pub fn top(&self) -> (r: Option<u64>)
        ensures
            r is None <==> self.weights().len() == 0,
            r matches Some(w) ==> self.weights().count(w) > 0
                && forall|x: u64| #[trigger] self.weights().count(x) > 0 ==> x <= w,
    {
        proof {
            use_type_invariant(self);
            broadcast use vstd::multiset::group_multiset_properties;
            if self.root is Some {
                let n = *self.root->0;
                assert(self.weights().count(n.aux) > 0);
                assert forall|x: u64| #[trigger] self.weights().count(x) > 0 implies x <= n.aux by {
                    lemma_heap_top(self.root, x);
                }
            }
        }
        match &self.root {
            None => None,
            Some(n) => Some(n.aux),
        }
    }

    /// Takes out the entry at the root, which has the greatest weight, by joining
    /// its subtrees; gives back that weight.
    pub fn pop(&mut self) -> (r: Option<u64>)
        ensures
            r is None <==> old(self).weights().len() == 0,
            r matches Some(w) ==> old(self).weights().count(w) > 0
                && (forall|x: u64| #[trigger] old(self).weights().count(x) > 0 ==> x <= w)
                && final(self).weights() == old(self).weights().remove(w)
                && final(self)@.len() + 1 == old(self)@.len(),
            r is None ==> final(self).weights() == old(self).weights() && final(self)@ == old(self)@,
            final(self).heap_ordered(),
    {
        proof {
            use_type_invariant(&*self);
        }
        let ghost old_root = self.root;
        let mut root = None;
        std::mem::swap(&mut root, &mut self.root);
        match root {
            None => None,
            Some(n) => {
                let ghost ng = *n;
                proof {
                    lemma_node_lookup(ng, ng.key);
                    broadcast use vstd::multiset::group_multiset_properties;
                    assert(link_weights(old_root).count(ng.aux) > 0);
                    assert forall|x: u64| #[trigger] link_weights(old_root).count(x) > 0 implies x <= ng.aux by {
                        lemma_heap_top(old_root, x);
                    }
                    assert forall|p: u64, q: u64| #[trigger] link_map(ng.left).dom().contains(p)
                        && #[trigger] link_map(ng.right).dom().contains(q) implies p.rank() < q.rank() by {
                    }
                }
                let TreeNode { key, val: _, aux, left, right } = *n;
                let t = join(left, right);
                proof {
                    assert(link_weights(t) =~= link_weights(old_root).remove(aux));
                    assert(link_map(t).dom() =~= link_map(old_root).dom().remove(key));
                    crate::avl::lemma_size_len(old_root);
                    crate::avl::lemma_size_len(t);
                }
                self.root = t;
                Some(aux)
            },
        }
    }

    /// Adds weight `w` under the key one above the greatest key held (0 where
    /// the treap is empty).
    pub fn push(&mut self, w: u64)
        requires
            forall|k: u64| #[trigger] old(self)@.dom().contains(k) ==> k < u64::MAX,
        ensures
            final(self).weights() == old(self).weights().insert(w),
            old(self)@.dom().len() == 0 ==> final(self)@ == old(self)@.insert(0, ()),
            old(self)@.dom().len() > 0 ==> exists|k: u64| #[trigger] old(self)@.dom().contains(k)
                && (forall|q: u64| #[trigger] old(self)@.dom().contains(q) ==> q <= k)
                && final(self)@ == old(self)@.insert((k + 1) as u64, ()),
            final(self).heap_ordered(),
    {
        proof {
            use_type_invariant(&*self);
            crate::avl::lemma_size_len(self.root);
        }
        let mk = max_key(&self.root);
        let next = match mk {
            None => 0,
            Some(k) => {
                proof {
                    assert(old(self)@.dom().contains(k));
                }
                k + 1
            },
        };
        let mut root = None;
        std::mem::swap(&mut root, &mut self.root);
        let node = Box::new(TreapNode::new(next, (), w));
        proof {
            lemma_node_lookup(*node, next);
            assert forall|p: u64, q: u64| #[trigger] link_map(root).dom().contains(p)
                && #[trigger] link_map(Some(node)).dom().contains(q) implies p.rank() < q.rank() by {
                assert(q == next);
            }
        }
        let t = join(root, Some(node));
        proof {
            broadcast use vstd::multiset::group_multiset_properties;
            assert(node.left is None && node.right is None && node.aux == w);
            assert(link_weights(node.left) == Multiset::<u64>::empty());
            assert(link_weights(node.right) == Multiset::<u64>::empty());
            assert(Multiset::<u64>::empty().add(Multiset::<u64>::empty()) =~= Multiset::<u64>::empty());
            assert(link_weights(Some(node)) == link_weights(node.left).add(link_weights(node.right)).insert(node.aux));
            assert(link_weights(t) =~= link_weights(root).insert(w));
            assert(link_map(t) =~= link_map(root).insert(next, ()));
            if root is None {
                assert(link_map(root) =~= Map::<u64, ()>::empty());
            }
            if let Some(k) = mk {
                assert(old(self)@.dom().contains(k));
            }
        }
        self.root = t;
    }
}

} // verus!

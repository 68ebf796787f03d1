//! Splay trees: every access rotates the node it reaches up to the root.

use vstd::prelude::*;
use crate::tree::{
    TreeKey, KeyOrder, TreeNode, link_map, link_ordered, link_get, rotate_left, rotate_right,
    lemma_node_lookup, link_insert_absent, link_modify,
};

verus! {

/// A node of a splay tree, which carries no balancing data.
pub type SplayNode<K, V> = TreeNode<K, V, ()>;

/// Rotates the node holding `k` up to the root of the subtree `n`, one level at a time.
fn splay_node<K: TreeKey, V>(n: Box<SplayNode<K, V>>, k: &K) -> (r: Box<SplayNode<K, V>>)
    requires
        n.node_ordered(),
        n.node_map().dom().contains(*k),
    ensures
        r.node_ordered(),
        r.node_map() == n.node_map(),
        r.key == *k,
    decreases n,
{
    let ghost old_node = *n;
    proof {
        lemma_node_lookup(old_node, *k);
    }
    match k.compare(&n.key) {
        KeyOrder::Equal => {
            proof {
                K::lemma_rank_injective(*k, n.key);
            }
            n
        },
        KeyOrder::Less => {
            let TreeNode { key, val, aux, left, right } = *n;
            let l = match left {
                Some(l) => l,
                None => {
                    proof {
                        assert(false);
                    }
                    return Box::new(TreeNode { key, val, aux, left: None, right });
                },
            };
            let ghost lg = *l;
            proof {
                assert(old_node.left == Some(Box::new(lg)));
                assert(link_ordered(old_node.left));
            }
            let nl = splay_node(l, k);
            let m = Box::new(TreeNode { key, val, aux, left: Some(nl), right });
            proof {
                assert(link_map(m.left) == link_map(old_node.left));
                assert(m.node_map() == old_node.node_map());
            }
            rotate_right(m)
        },
        KeyOrder::Greater => {
            let TreeNode { key, val, aux, left, right } = *n;
            let rn = match right {
                Some(rn) => rn,
                None => {
                    proof {
                        assert(false);
                    }
                    return Box::new(TreeNode { key, val, aux, left, right: None });
                },
            };
            let ghost rg = *rn;
            proof {
                assert(old_node.right == Some(Box::new(rg)));
                assert(link_ordered(old_node.right));
            }
            let nr = splay_node(rn, k);
            let m = Box::new(TreeNode { key, val, aux, left, right: Some(nr) });
            proof {
                assert(link_map(m.right) == link_map(old_node.right));
                assert(m.node_map() == old_node.node_map());
            }
            rotate_left(m)
        },
    }
}

/// Rotates the node of greatest key up to the root of the subtree `n`.
fn splay_max<K: TreeKey, V>(n: Box<SplayNode<K, V>>) -> (r: Box<SplayNode<K, V>>)
    requires
        n.node_ordered(),
    ensures
        r.node_ordered(),
        r.node_map() == n.node_map(),
        r.right is None,
    decreases n,
{
    if n.right.is_none() {
        return n;
    }
    let ghost old_node = *n;
    let TreeNode { key, val, aux, left, right } = *n;
    let rn = match right {
        Some(rn) => rn,
        None => {
            return Box::new(TreeNode { key, val, aux, left, right: None });
        },
    };
    let ghost rg = *rn;
    proof {
        assert(old_node.right == Some(Box::new(rg)));
        assert(link_ordered(old_node.right));
    }
    let nr = splay_max(rn);
    let m = Box::new(TreeNode { key, val, aux, left, right: Some(nr) });
    proof {
        assert(link_map(m.right) == link_map(old_node.right));
        assert(m.node_map() == old_node.node_map());
    }
    rotate_left(m)
}

/// An ordered map kept as a splay tree.
pub struct Splay<K: TreeKey, V> {
    root: Option<Box<SplayNode<K, V>>>,
}

impl<K: TreeKey, V> Splay<K, V> {
    #[verifier::type_invariant]
    spec fn well_formed(self) -> bool {
        link_ordered(self.root)
    }

    /// The map the tree holds.
    pub closed spec fn map(self) -> Map<K, V> {
        link_map(self.root)
    }

    /// The key at the root, where the tree has one.
    pub closed spec fn root_key(self) -> Option<K> {
        match self.root {
            Some(n) => Some(n.key),
            None => None,
        }
    }
}

impl<K: TreeKey, V> View for Splay<K, V> {
    type V = Map<K, V>;

    open spec fn view(&self) -> Map<K, V> {
        self.map()
    }
}

impl<K: TreeKey, V> Splay<K, V> {
    /// The empty map.
    pub fn new() -> (r: Self)
        ensures
            r@ == Map::<K, V>::empty(),
    {
        Splay { root: None }
    }

    /// Rotates the node of `k`, which the tree holds, to the root.
    fn splay(&mut self, k: &K)
        requires
            old(self)@.dom().contains(*k),
        ensures
            final(self)@ == old(self)@,
            final(self).root_key() == Some(*k),
    {
        proof {
            use_type_invariant(&*self);
        }
        let mut root = None;
        std::mem::swap(&mut root, &mut self.root);
        match root {
            Some(n) => {
                self.root = Some(splay_node(n, k));
            },
            None => {},
        }
    }

    /// The value held for `k`, if any; a key that is found is rotated to the root.
    pub fn get(&mut self, k: &K) -> (r: Option<&V>)
        ensures
            final(self)@ == old(self)@,
            r == (if old(self)@.dom().contains(*k) { Some(&old(self)@[*k]) } else { None }),
            old(self)@.dom().contains(*k) ==> final(self).root_key() == Some(*k),
    {
        proof {
            use_type_invariant(&*self);
        }
        let found = link_get(&self.root, k).is_some();
        if found {
            self.splay(k);
            proof {
                use_type_invariant(&*self);
            }
            link_get(&self.root, k)
        } else {
            None
        }
    }

    /// Maps `k` to `v` and rotates `k` to the root; gives back the value `k` had, if any.
    pub fn insert(&mut self, k: K, v: V) -> (r: Option<V>)
        ensures
            final(self)@ == old(self)@.insert(k, v),
            r == (if old(self)@.dom().contains(k) { Some(old(self)@[k]) } else { None }),
            final(self).root_key() == Some(k),
    {
        proof {
            use_type_invariant(&*self);
        }
        let present = link_get(&self.root, &k).is_some();
        let mut root = None;
        std::mem::swap(&mut root, &mut self.root);
        let popped = if present {
            let (n, old_value) = link_modify(root, &k, v);
            self.root = n;
            old_value
        } else {
            let (n, _) = link_insert_absent(root, k, v, ());
            self.root = Some(n);
            None
        };
        self.splay(&k);
        popped
    }

    /// Removes `k`; gives back its value, if it had one. The node of `k` is rotated
    /// to the root, and its left subtree, with its greatest key rotated up, takes its place.
    pub fn remove(&mut self, k: &K) -> (r: Option<V>)
        ensures
            final(self)@ == old(self)@.remove(*k),
            r == (if old(self)@.dom().contains(*k) { Some(old(self)@[*k]) } else { None }),
    {
        proof {
            use_type_invariant(&*self);
        }
        if link_get(&self.root, k).is_none() {
            proof {
                assert(old(self)@.remove(*k) =~= old(self)@);
            }
            return None;
        }
        self.splay(k);
        proof {
            use_type_invariant(&*self);
        }
        let mut root = None;
        std::mem::swap(&mut root, &mut self.root);
        match root {
            Some(n) => {
                let ghost old_node = *n;
                proof {
                    lemma_node_lookup(old_node, *k);
                }
                let TreeNode { key, val, aux, left, right } = *n;
                match left {
                    Some(l) => {
                        let ghost lg = *l;
                        proof {
                            assert(old_node.left == Some(Box::new(lg)));
                            assert(link_ordered(old_node.left));
                            assert(link_map(old_node.left) == lg.node_map());
                        }
                        let m = splay_max(l);
                        let ghost mg = *m;
                        proof {
                            lemma_node_lookup(mg, mg.key);
                            assert(link_map(mg.right) =~= Map::empty());
                            assert forall|q: K| #[trigger] link_map(mg.left).dom().contains(q) implies q.rank() < mg.key.rank() by {
                            }
                            assert forall|q: K| #[trigger] link_map(right).dom().contains(q) implies q.rank() > mg.key.rank() by {
                                assert(lg.node_map().dom().contains(mg.key));
                            }
                        }
                        let TreeNode { key: mk, val: mv, aux: ma, left: ml, right: _ } = *m;
                        let nn = Box::new(TreeNode { key: mk, val: mv, aux: ma, left: ml, right });
                        proof {
                            assert(mg.node_map() =~= link_map(ml).insert(mk, mv));
                            assert(old_node.key == *k);
                            let lm = link_map(ml);
                            let rm = link_map(right);
                            assert forall|q: K| #[trigger] lm.dom().contains(q) implies q.rank() < k.rank() by {
                                assert(lg.node_map().dom().contains(q));
                            }
                            assert(!rm.dom().contains(*k));
                            assert(nn.node_map() =~= old_node.node_map().remove(*k)) by {
                                assert forall|q: K| #[trigger] nn.node_map().dom().contains(q) == old_node.node_map().remove(*k).dom().contains(q) by {
                                }
                                assert forall|q: K| nn.node_map().dom().contains(q) implies #[trigger] nn.node_map()[q] == old_node.node_map().remove(*k)[q] by {
                                    if q != mk && lm.dom().contains(q) {
                                        assert(!rm.dom().contains(q));
                                    }
                                }
                            }
                        }
                        self.root = Some(nn);
                    },
                    None => {
                        proof {
                            assert(link_map(right) =~= old_node.node_map().remove(*k));
                        }
                        self.root = right;
                    },
                }
                Some(val)
            },
            None => None,
        }
    }
}

} // verus!

//! Unbalanced search trees: entries go where the search for their key ends.

use vstd::prelude::*;
use crate::tree::{
    TreeKey, TreeNode, link_map, link_ordered, link_get, link_insert_absent, link_modify, link_remove,
};

verus! {

/// A node of an unbalanced search tree, which carries no balancing data.
pub type RawSTNode<K, V> = TreeNode<K, V, ()>;

impl<K, V> RawSTNode<K, V> {
    /// A node holding `key -> value` with no subtrees.
    pub fn new(key: K, value: V) -> (r: Self)
        ensures
            r.key == key,
            r.val == value,
            r.left is None,
            r.right is None,
    {
        TreeNode::leaf(key, value, ())
    }
}

/// An ordered map kept as an unbalanced search tree.
pub struct RawST<K: TreeKey, V> {
    root: Option<Box<RawSTNode<K, V>>>,
}

impl<K: TreeKey, V> RawST<K, V> {
    #[verifier::type_invariant]
    spec fn well_formed(self) -> bool {
        link_ordered(self.root)
    }

    /// The map the tree holds.
    pub closed spec fn map(self) -> Map<K, V> {
        link_map(self.root)
    }
}

impl<K: TreeKey, V> View for RawST<K, V> {
    type V = Map<K, V>;

    open spec fn view(&self) -> Map<K, V> {
        self.map()
    }
}

impl<K: TreeKey, V> RawST<K, V> {
    /// The empty map.
    pub fn new() -> (r: Self)
        ensures
            r@ == Map::<K, V>::empty(),
    {
        RawST { root: None }
    }

    /// Adds `key -> value` where `key` is absent; tells whether it did.
    pub fn insert(&mut self, key: K, value: V) -> (r: bool)
        ensures
            r == !old(self)@.dom().contains(key),
            final(self)@ == (if r { old(self)@.insert(key, value) } else { old(self)@ }),
    {
        proof {
            use_type_invariant(&*self);
        }
        let mut root = None;
        std::mem::swap(&mut root, &mut self.root);
        let (n, inserted) = link_insert_absent(root, key, value, ());
        self.root = Some(n);
        inserted
    }

    /// Removes `key`; gives back its value, if it had one.
    pub fn remove(&mut self, key: &K) -> (r: Option<V>)
        ensures
            final(self)@ == old(self)@.remove(*key),
            r == (if old(self)@.dom().contains(*key) { Some(old(self)@[*key]) } else { None }),
    {
        proof {
            use_type_invariant(&*self);
        }
        let mut root = None;
        std::mem::swap(&mut root, &mut self.root);
        let (n, popped) = link_remove(root, key);
        self.root = n;
        popped
    }

    /// Sets the value of `key` where it is present; tells whether it was.
    pub fn modify(&mut self, key: &K, value: V) -> (r: bool)
        ensures
            r == old(self)@.dom().contains(*key),
            final(self)@ == (if r { old(self)@.insert(*key, value) } else { old(self)@ }),
    {
        proof {
            use_type_invariant(&*self);
        }
        let mut root = None;
        std::mem::swap(&mut root, &mut self.root);
        let (n, old_value) = link_modify(root, key, value);
        self.root = n;
        old_value.is_some()
    }

    /// The value held for `key`, if any.
    pub fn lookup(&self, key: &K) -> (r: Option<&V>)
        ensures
            r == (if self@.dom().contains(*key) { Some(&self@[*key]) } else { None }),
    {
        proof {
            use_type_invariant(self);
        }
        link_get(&self.root, key)
    }
}

} // verus!

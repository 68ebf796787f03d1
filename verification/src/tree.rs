//! Binary search trees of boxed nodes: the map a tree holds, the search order
//! of its keys, lookup, and the rotations that every balancing scheme is built from.

use vstd::prelude::*;

verus! {

/// How two keys compare.
pub enum KeyOrder {
    Less,
    Equal,
    Greater,
}

/// Keys of the ordered maps: values ranked by an integer, two keys of one rank being equal.
pub trait TreeKey: Sized + Copy {
    /// The position of the key in the search order.
    spec fn rank(self) -> int;

    /// Keys of equal rank are equal.
    proof fn lemma_rank_injective(a: Self, b: Self)
        ensures
            a.rank() == b.rank() ==> a == b,
    ;

    /// Compares two keys by rank.
    fn compare(&self, other: &Self) -> (r: KeyOrder)
        ensures
            r is Less <==> self.rank() < other.rank(),
            r is Equal <==> self.rank() == other.rank(),
            r is Greater <==> self.rank() > other.rank(),
    ;
}

impl TreeKey for u16 {
    open spec fn rank(self) -> int {
        self as int
    }

    proof fn lemma_rank_injective(a: Self, b: Self) {
    }

    fn compare(&self, other: &Self) -> (r: KeyOrder) {
        if *self < *other {
            KeyOrder::Less
        } else if *self == *other {
            KeyOrder::Equal
        } else {
            KeyOrder::Greater
        }
    }
}

impl TreeKey for i32 {
    open spec fn rank(self) -> int {
        self as int
    }

    proof fn lemma_rank_injective(a: Self, b: Self) {
    }

    fn compare(&self, other: &Self) -> (r: KeyOrder) {
        if *self < *other {
            KeyOrder::Less
        } else if *self == *other {
            KeyOrder::Equal
        } else {
            KeyOrder::Greater
        }
    }
}

impl TreeKey for u32 {
    open spec fn rank(self) -> int {
        self as int
    }

    proof fn lemma_rank_injective(a: Self, b: Self) {
    }

    fn compare(&self, other: &Self) -> (r: KeyOrder) {
        if *self < *other {
            KeyOrder::Less
        } else if *self == *other {
            KeyOrder::Equal
        } else {
            KeyOrder::Greater
        }
    }
}

impl TreeKey for u64 {
    open spec fn rank(self) -> int {
        self as int
    }

    proof fn lemma_rank_injective(a: Self, b: Self) {
    }

    fn compare(&self, other: &Self) -> (r: KeyOrder) {
        if *self < *other {
            KeyOrder::Less
        } else if *self == *other {
            KeyOrder::Equal
        } else {
            KeyOrder::Greater
        }
    }
}

/// A node: an entry, the balancing data `aux` of its scheme, and two subtrees.
pub struct TreeNode<K, V, A> {
    pub key: K,
    pub val: V,
    pub aux: A,
    pub left: Option<Box<TreeNode<K, V, A>>>,
    pub right: Option<Box<TreeNode<K, V, A>>>,
}

/// The map that a subtree holds.
pub open spec fn link_map<K, V, A>(l: Option<Box<TreeNode<K, V, A>>>) -> Map<K, V>
    decreases l,
{
    match l {
        None => Map::empty(),
        Some(n) => n.node_map(),
    }
}

/// Every key of the subtree ranks below `r`.
pub open spec fn all_below<K: TreeKey, V, A>(l: Option<Box<TreeNode<K, V, A>>>, r: int) -> bool {
    forall|q: K| #[trigger] link_map(l).dom().contains(q) ==> q.rank() < r
}

/// Every key of the subtree ranks above `r`.
pub open spec fn all_above<K: TreeKey, V, A>(l: Option<Box<TreeNode<K, V, A>>>, r: int) -> bool {
    forall|q: K| #[trigger] link_map(l).dom().contains(q) ==> q.rank() > r
}

/// The subtree is a search tree: in each node, the keys on the left rank below
/// the node's key and those on the right above it.
pub open spec fn link_ordered<K: TreeKey, V, A>(l: Option<Box<TreeNode<K, V, A>>>) -> bool
    decreases l,
{
    match l {
        None => true,
        Some(n) => n.node_ordered(),
    }
}

/// The number of nodes of a subtree.
pub open spec fn link_size<K, V, A>(l: Option<Box<TreeNode<K, V, A>>>) -> nat
    decreases l,
{
    match l {
        None => 0,
        Some(n) => n.node_size(),
    }
}

impl<K, V, A> TreeNode<K, V, A> {
    /// The map that the subtree rooted here holds.
    pub open spec fn node_map(self) -> Map<K, V>
        decreases self,
    {
        link_map(self.left).union_prefer_right(link_map(self.right)).insert(self.key, self.val)
    }

    /// The number of nodes of the subtree rooted here.
    pub open spec fn node_size(self) -> nat
        decreases self,
    {
        1 + link_size(self.left) + link_size(self.right)
    }

    /// A node with no subtrees.
    pub fn leaf(key: K, val: V, aux: A) -> (r: Self)
        ensures
            r.key == key,
            r.val == val,
            r.aux == aux,
            r.left is None,
            r.right is None,
    {
        TreeNode { key, val, aux, left: None, right: None }
    }
}

impl<K: TreeKey, V, A> TreeNode<K, V, A> {
    /// The subtree rooted here is a search tree.
    pub open spec fn node_ordered(self) -> bool
        decreases self,
    {
        &&& all_below(self.left, self.key.rank())
        &&& all_above(self.right, self.key.rank())
        &&& link_ordered(self.left)
        &&& link_ordered(self.right)
    }
}

/// The map of a search tree holds its root key, and a key ranking below the root
/// is held exactly where the left subtree holds it (likewise on the right).
pub proof fn lemma_node_lookup<K: TreeKey, V, A>(n: TreeNode<K, V, A>, q: K)
    requires
        n.node_ordered(),
    ensures
        n.node_map().dom().contains(n.key),
        n.node_map()[n.key] == n.val,
        q.rank() < n.key.rank() ==> (n.node_map().dom().contains(q) == link_map(n.left).dom().contains(q)),
        q.rank() < n.key.rank() && link_map(n.left).dom().contains(q) ==> n.node_map()[q] == link_map(n.left)[q],
        q.rank() > n.key.rank() ==> (n.node_map().dom().contains(q) == link_map(n.right).dom().contains(q)),
        q.rank() > n.key.rank() && link_map(n.right).dom().contains(q) ==> n.node_map()[q] == link_map(n.right)[q],
{
    if q.rank() < n.key.rank() && link_map(n.right).dom().contains(q) {
        assert(q.rank() > n.key.rank());
    }
    if q.rank() > n.key.rank() && link_map(n.left).dom().contains(q) {
        assert(q.rank() < n.key.rank());
    }
}

/// The value that a search tree holds for `k`, if any.
pub fn link_get<'a, K: TreeKey, V, A>(link: &'a Option<Box<TreeNode<K, V, A>>>, k: &K) -> (r: Option<&'a V>)
    requires
        link_ordered(*link),
    ensures
        r == (if link_map(*link).dom().contains(*k) { Some(&link_map(*link)[*k]) } else { None }),
    decreases link,
{
    match link {
        None => None,
        Some(node) => {
            proof {
                lemma_node_lookup(**node, *k);
            }
            match k.compare(&node.key) {
                KeyOrder::Equal => {
                    proof {
                        K::lemma_rank_injective(*k, node.key);
                    }
                    Some(&node.val)
                },
                KeyOrder::Less => link_get(&node.left, k),
                KeyOrder::Greater => link_get(&node.right, k),
            }
        },
    }
}

/// Moving the root of a search tree one step down and its child one step up
/// leaves the map it holds unchanged.
pub proof fn lemma_rotation_map<K: TreeKey, V>(ma: Map<K, V>, mb: Map<K, V>, mc: Map<K, V>, yk: K, yv: V, xk: K, xv: V)
    requires
        forall|q: K| #[trigger] ma.dom().contains(q) ==> q.rank() < yk.rank(),
        forall|q: K| #[trigger] mb.dom().contains(q) ==> yk.rank() < q.rank() < xk.rank(),
        forall|q: K| #[trigger] mc.dom().contains(q) ==> q.rank() > xk.rank(),
        yk.rank() < xk.rank(),
    ensures
        ma.union_prefer_right(mb.union_prefer_right(mc).insert(xk, xv)).insert(yk, yv)
            == ma.union_prefer_right(mb).insert(yk, yv).union_prefer_right(mc).insert(xk, xv),
{
    let lhs = ma.union_prefer_right(mb.union_prefer_right(mc).insert(xk, xv)).insert(yk, yv);
    let rhs = ma.union_prefer_right(mb).insert(yk, yv).union_prefer_right(mc).insert(xk, xv);
    assert forall|q: K| #[trigger] lhs.dom().contains(q) == rhs.dom().contains(q) by {
    }
    assert forall|q: K| lhs.dom().contains(q) implies #[trigger] lhs[q] == rhs[q] by {
        if q == yk {
        } else if q == xk {
        } else if ma.dom().contains(q) {
            assert(!mb.dom().contains(q));
            assert(!mc.dom().contains(q));
        } else if mb.dom().contains(q) {
            assert(!mc.dom().contains(q));
        }
    }
    assert(lhs =~= rhs);
}

/// Inserting below the root on the side where the key belongs inserts into the whole map.
pub proof fn lemma_insert_below<K: TreeKey, V>(ml: Map<K, V>, mr: Map<K, V>, key: K, val: V, k: K, v: V, left: bool)
    requires
        forall|q: K| #[trigger] ml.dom().contains(q) ==> q.rank() < key.rank(),
        forall|q: K| #[trigger] mr.dom().contains(q) ==> q.rank() > key.rank(),
        left ==> k.rank() < key.rank(),
        !left ==> k.rank() > key.rank(),
    ensures
        left ==> ml.insert(k, v).union_prefer_right(mr).insert(key, val) == ml.union_prefer_right(mr).insert(key, val).insert(k, v),
        !left ==> ml.union_prefer_right(mr.insert(k, v)).insert(key, val) == ml.union_prefer_right(mr).insert(key, val).insert(k, v),
{
    if left {
        assert(ml.insert(k, v).union_prefer_right(mr).insert(key, val) =~= ml.union_prefer_right(mr).insert(key, val).insert(k, v));
    } else {
        assert(ml.union_prefer_right(mr.insert(k, v)).insert(key, val) =~= ml.union_prefer_right(mr).insert(key, val).insert(k, v));
    }
}

/// Removing below the root on the side where the key belongs removes from the whole map.
pub proof fn lemma_remove_below<K: TreeKey, V>(ml: Map<K, V>, mr: Map<K, V>, key: K, val: V, k: K, left: bool)
    requires
        forall|q: K| #[trigger] ml.dom().contains(q) ==> q.rank() < key.rank(),
        forall|q: K| #[trigger] mr.dom().contains(q) ==> q.rank() > key.rank(),
        left ==> k.rank() < key.rank(),
        !left ==> k.rank() > key.rank(),
    ensures
        left ==> ml.remove(k).union_prefer_right(mr).insert(key, val) == ml.union_prefer_right(mr).insert(key, val).remove(k),
        !left ==> ml.union_prefer_right(mr.remove(k)).insert(key, val) == ml.union_prefer_right(mr).insert(key, val).remove(k),
{
    if left {
        assert(ml.remove(k).union_prefer_right(mr).insert(key, val) =~= ml.union_prefer_right(mr).insert(key, val).remove(k));
    } else {
        assert(ml.union_prefer_right(mr.remove(k)).insert(key, val) =~= ml.union_prefer_right(mr).insert(key, val).remove(k));
    }
}

/// Replacing the root by the least entry `s -> sv` of the right side removes the root key.
pub proof fn lemma_remove_root<K: TreeKey, V>(ml: Map<K, V>, mr: Map<K, V>, key: K, val: V, s: K, sv: V)
    requires
        forall|q: K| #[trigger] ml.dom().contains(q) ==> q.rank() < key.rank(),
        forall|q: K| #[trigger] mr.dom().contains(q) ==> q.rank() > key.rank(),
        mr.dom().contains(s),
        mr[s] == sv,
    ensures
        ml.union_prefer_right(mr.remove(s)).insert(s, sv) == ml.union_prefer_right(mr).insert(key, val).remove(key),
{
    assert(ml.union_prefer_right(mr.remove(s)).insert(s, sv) =~= ml.union_prefer_right(mr).insert(key, val).remove(key));
}

/// `x` with left child `y` turned into `y` with right child `x`, the right
/// subtree of `y` becoming the left subtree of `x`.
pub open spec fn rotr<K, V, A>(x: TreeNode<K, V, A>) -> TreeNode<K, V, A> {
    let y = *x.left->0;
    TreeNode {
        key: y.key,
        val: y.val,
        aux: y.aux,
        left: y.left,
        right: Some(Box::new(TreeNode { key: x.key, val: x.val, aux: x.aux, left: y.right, right: x.right })),
    }
}

/// `x` with right child `y` turned into `y` with left child `x`, the left
/// subtree of `y` becoming the right subtree of `x`.
pub open spec fn rotl<K, V, A>(x: TreeNode<K, V, A>) -> TreeNode<K, V, A> {
    let y = *x.right->0;
    TreeNode {
        key: y.key,
        val: y.val,
        aux: y.aux,
        left: Some(Box::new(TreeNode { key: x.key, val: x.val, aux: x.aux, left: x.left, right: y.left })),
        right: y.right,
    }
}

/// Turns `x` with left child `y` into `y` with right child `x`; the map and the order stay.
pub fn rotate_right<K: TreeKey, V, A>(x: Box<TreeNode<K, V, A>>) -> (r: Box<TreeNode<K, V, A>>)
    requires
        x.node_ordered(),
        x.left is Some,
    ensures
        r.node_ordered(),
        r.node_map() == x.node_map(),
        r.node_size() == x.node_size(),
        r.key == x.left->0.key,
        r.aux == x.left->0.aux,
        r.left == x.left->0.left,
        r.right matches Some(nx) && nx.key == x.key && nx.aux == x.aux && nx.left == x.left->0.right
            && nx.right == x.right,
        *r == rotr(*x),
{
    let TreeNode { key: xk, val: xv, aux: xa, left: xl, right: xr } = *x;
    let y = match xl {
        Some(y) => y,
        None => {
            proof {
                assert(false);
            }
            return Box::new(TreeNode { key: xk, val: xv, aux: xa, left: None, right: xr });
        },
    };
    let TreeNode { key: yk, val: yv, aux: ya, left: a, right: b } = *y;
    let ghost yn = TreeNode { key: yk, val: yv, aux: ya, left: a, right: b };
    proof {
        assert(x.left == Some(Box::new(yn)));
        assert(yn.node_ordered());
        assert(link_map(x.left) == yn.node_map());
        lemma_node_lookup(yn, yk);
        assert forall|q: K| #[trigger] link_map(b).dom().contains(q) implies q.rank() < xk.rank() by {
            assert(yn.node_map().dom().contains(q));
        }
        assert forall|q: K| #[trigger] link_map(a).dom().contains(q) implies q.rank() < xk.rank() by {
            assert(yn.node_map().dom().contains(q));
        }
    }
    let nx = TreeNode { key: xk, val: xv, aux: xa, left: b, right: xr };
    let ghost nxg = nx;
    let r = Box::new(TreeNode { key: yk, val: yv, aux: ya, left: a, right: Some(Box::new(nx)) });
    proof {
        assert(link_map(r.right) == nxg.node_map());
        assert(nxg.node_ordered());
        assert forall|q: K| #[trigger] link_map(r.right).dom().contains(q) implies q.rank() > yk.rank() by {
            assert(nxg.node_map().dom().contains(q));
            if q != xk && !link_map(nxg.left).dom().contains(q) {
                assert(link_map(nxg.right).dom().contains(q));
            }
        }
        assert(link_size(x.left) == yn.node_size());
        assert(link_size(r.right) == nxg.node_size());
        assert forall|q: K| #[trigger] link_map(b).dom().contains(q) implies yk.rank() < q.rank() < xk.rank() by {
            assert(yn.node_map().dom().contains(q));
        }
        lemma_rotation_map(link_map(a), link_map(b), link_map(xr), yk, yv, xk, xv);
    }
    r
}

/// Turns `x` with right child `y` into `y` with left child `x`; the map and the order stay.
pub fn rotate_left<K: TreeKey, V, A>(x: Box<TreeNode<K, V, A>>) -> (r: Box<TreeNode<K, V, A>>)
    requires
        x.node_ordered(),
        x.right is Some,
    ensures
        r.node_ordered(),
        r.node_map() == x.node_map(),
        r.node_size() == x.node_size(),
        r.key == x.right->0.key,
        r.aux == x.right->0.aux,
        r.right == x.right->0.right,
        r.left matches Some(nx) && nx.key == x.key && nx.aux == x.aux && nx.right == x.right->0.left
            && nx.left == x.left,
        *r == rotl(*x),
{
    let TreeNode { key: xk, val: xv, aux: xa, left: xl, right: xr } = *x;
    let y = match xr {
        Some(y) => y,
        None => {
            proof {
                assert(false);
            }
            return Box::new(TreeNode { key: xk, val: xv, aux: xa, left: xl, right: None });
        },
    };
    let TreeNode { key: yk, val: yv, aux: ya, left: b, right: c } = *y;
    let ghost yn = TreeNode { key: yk, val: yv, aux: ya, left: b, right: c };
    proof {
        assert(x.right == Some(Box::new(yn)));
        assert(yn.node_ordered());
        assert(link_map(x.right) == yn.node_map());
        lemma_node_lookup(yn, yk);
        assert forall|q: K| #[trigger] link_map(b).dom().contains(q) implies q.rank() > xk.rank() by {
            assert(yn.node_map().dom().contains(q));
        }
        assert forall|q: K| #[trigger] link_map(c).dom().contains(q) implies q.rank() > xk.rank() by {
            assert(yn.node_map().dom().contains(q));
        }
    }
    let nx = TreeNode { key: xk, val: xv, aux: xa, left: xl, right: b };
    let ghost nxg = nx;
    let r = Box::new(TreeNode { key: yk, val: yv, aux: ya, left: Some(Box::new(nx)), right: c });
    proof {
        assert(link_map(r.left) == nxg.node_map());
        assert(nxg.node_ordered());
        assert forall|q: K| #[trigger] link_map(r.left).dom().contains(q) implies q.rank() < yk.rank() by {
            assert(nxg.node_map().dom().contains(q));
            if q != xk && !link_map(nxg.right).dom().contains(q) {
                assert(link_map(nxg.left).dom().contains(q));
            }
        }
        assert(link_size(x.right) == yn.node_size());
        assert(link_size(r.left) == nxg.node_size());
        assert forall|q: K| #[trigger] link_map(b).dom().contains(q) implies xk.rank() < q.rank() < yk.rank() by {
            assert(yn.node_map().dom().contains(q));
        }
        lemma_rotation_map(link_map(xl), link_map(b), link_map(c), xk, xv, yk, yv);
    }
    r
}

} // verus!

verus! {

/// Inserts `k -> v` as a new leaf below `link` where `k` is absent (the new node
/// carrying `aux`); where `k` is present, nothing changes. Tells whether it inserted.
pub fn link_insert_absent<K: TreeKey, V, A>(link: Option<Box<TreeNode<K, V, A>>>, k: K, v: V, aux: A) -> (r: (Box<TreeNode<K, V, A>>, bool))
    requires
        link_ordered(link),
    ensures
        r.0.node_ordered(),
        r.1 == !link_map(link).dom().contains(k),
        r.0.node_map() == (if r.1 { link_map(link).insert(k, v) } else { link_map(link) }),
    decreases link,
{
    match link {
        None => (Box::new(TreeNode::leaf(k, v, aux)), true),
        Some(node) => {
            let ghost old_node = *node;
            proof {
                lemma_node_lookup(old_node, k);
            }
            let TreeNode { key, val, aux: a, left, right } = *node;
            match k.compare(&key) {
                KeyOrder::Equal => {
                    proof {
                        K::lemma_rank_injective(k, key);
                    }
                    (Box::new(TreeNode { key, val, aux: a, left, right }), false)
                },
                KeyOrder::Less => {
                    let (nl, ins) = link_insert_absent(left, k, v, aux);
                    let n = Box::new(TreeNode { key, val, aux: a, left: Some(nl), right });
                    proof {
                        assert(link_map(n.left) == nl.node_map());
                        assert(all_below(n.left, key.rank()));
                        lemma_insert_below(link_map(left), link_map(right), key, val, k, v, true);
                    }
                    (n, ins)
                },
                KeyOrder::Greater => {
                    let (nr, ins) = link_insert_absent(right, k, v, aux);
                    let n = Box::new(TreeNode { key, val, aux: a, left, right: Some(nr) });
                    proof {
                        assert(link_map(n.right) == nr.node_map());
                        assert(all_above(n.right, key.rank()));
                        lemma_insert_below(link_map(left), link_map(right), key, val, k, v, false);
                    }
                    (n, ins)
                },
            }
        },
    }
}

/// The two subtrees have the same shape and the same balancing data at each
/// place (their entries may differ).
pub open spec fn same_shape<K, V, A>(a: Option<Box<TreeNode<K, V, A>>>, b: Option<Box<TreeNode<K, V, A>>>) -> bool
    decreases a,
{
    match (a, b) {
        (None, None) => true,
        (Some(x), Some(y)) => x.aux == y.aux && same_shape(x.left, y.left) && same_shape(x.right, y.right),
        _ => false,
    }
}

/// Every subtree has its own shape.
pub proof fn lemma_same_shape_refl<K, V, A>(a: Option<Box<TreeNode<K, V, A>>>)
    ensures
        same_shape(a, a),
    decreases a,
{
    match a {
        None => {},
        Some(x) => {
            lemma_same_shape_refl(x.left);
            lemma_same_shape_refl(x.right);
        },
    }
}

/// Sets the value of `k` to `v` where `k` is present; gives back the value it had.
pub fn link_modify<K: TreeKey, V, A>(link: Option<Box<TreeNode<K, V, A>>>, k: &K, v: V) -> (r: (Option<Box<TreeNode<K, V, A>>>, Option<V>))
    requires
        link_ordered(link),
    ensures
        link_ordered(r.0),
        r.1 == (if link_map(link).dom().contains(*k) { Some(link_map(link)[*k]) } else { None }),
        link_map(r.0) == (if r.1 is Some { link_map(link).insert(*k, v) } else { link_map(link) }),
        same_shape(r.0, link),
    decreases link,
{
    match link {
        None => (None, None),
        Some(node) => {
            let ghost old_node = *node;
            proof {
                lemma_node_lookup(old_node, *k);
                lemma_same_shape_refl(old_node.left);
                lemma_same_shape_refl(old_node.right);
            }
            let TreeNode { key, val, aux, left, right } = *node;
            match k.compare(&key) {
                KeyOrder::Equal => {
                    proof {
                        K::lemma_rank_injective(*k, key);
                    }
                    let n = Box::new(TreeNode { key, val: v, aux, left, right });
                    proof {
                        assert(n.node_map() =~= old_node.node_map().insert(*k, v));
                    }
                    (Some(n), Some(val))
                },
                KeyOrder::Less => {
                    let (nl, found) = link_modify(left, k, v);
                    let n = Box::new(TreeNode { key, val, aux, left: nl, right });
                    proof {
                        if found is Some {
                            lemma_insert_below(link_map(left), link_map(right), key, val, *k, v, true);
                        }
                    }
                    (Some(n), found)
                },
                KeyOrder::Greater => {
                    let (nr, found) = link_modify(right, k, v);
                    let n = Box::new(TreeNode { key, val, aux, left, right: nr });
                    proof {
                        if found is Some {
                            lemma_insert_below(link_map(left), link_map(right), key, val, *k, v, false);
                        }
                    }
                    (Some(n), found)
                },
            }
        },
    }
}

/// Takes the entry of least key out of the subtree rooted at `n`, without rebalancing.
pub fn node_remove_min<K: TreeKey, V, A>(n: Box<TreeNode<K, V, A>>) -> (r: (Option<Box<TreeNode<K, V, A>>>, K, V))
    requires
        n.node_ordered(),
    ensures
        link_ordered(r.0),
        n.node_map().dom().contains(r.1),
        n.node_map()[r.1] == r.2,
        link_map(r.0) == n.node_map().remove(r.1),
        forall|q: K| #[trigger] link_map(r.0).dom().contains(q) ==> q.rank() > r.1.rank(),
    decreases n,
{
    let ghost old_node = *n;
    proof {
        lemma_node_lookup(old_node, old_node.key);
    }
    let TreeNode { key, val, aux, left, right } = *n;
    match left {
        None => {
            proof {
                assert(link_map(right) =~= old_node.node_map().remove(key));
            }
            (right, key, val)
        },
        Some(l) => {
            let ghost lg = *l;
            proof {
                assert(link_map(old_node.left) == lg.node_map());
            }
            let (nl, mk, mv) = node_remove_min(l);
            proof {
                lemma_node_lookup(old_node, mk);
                assert forall|q: K| #[trigger] link_map(nl).dom().contains(q) implies q.rank() < key.rank() by {
                    assert(lg.node_map().dom().contains(q));
                }
            }
            let m = Box::new(TreeNode { key, val, aux, left: nl, right });
            proof {
                assert(mk.rank() < key.rank());
                lemma_remove_below(link_map(old_node.left), link_map(right), key, val, mk, true);
                assert forall|q: K| #[trigger] m.node_map().dom().contains(q) implies q.rank() > mk.rank() by {
                    if q != key && !link_map(nl).dom().contains(q) {
                        assert(link_map(right).dom().contains(q));
                    }
                }
            }
            (Some(m), mk, mv)
        },
    }
}

/// Removes `k` from below `link`, putting the least entry of the right side in
/// the place of a node with two children; gives back the value of `k`.
pub fn link_remove<K: TreeKey, V, A>(link: Option<Box<TreeNode<K, V, A>>>, k: &K) -> (r: (Option<Box<TreeNode<K, V, A>>>, Option<V>))
    requires
        link_ordered(link),
    ensures
        link_ordered(r.0),
        link_map(r.0) == link_map(link).remove(*k),
        r.1 == (if link_map(link).dom().contains(*k) { Some(link_map(link)[*k]) } else { None }),
    decreases link,
{
    match link {
        None => {
            proof {
                assert(link_map(link).remove(*k) =~= link_map(link));
            }
            (None, None)
        },
        Some(node) => {
            let ghost old_node = *node;
            proof {
                lemma_node_lookup(old_node, *k);
            }
            let TreeNode { key, val, aux, left, right } = *node;
            match k.compare(&key) {
                KeyOrder::Equal => {
                    proof {
                        K::lemma_rank_injective(*k, key);
                    }
                    match right {
                        None => {
                            proof {
                                assert(link_map(left) =~= old_node.node_map().remove(*k));
                            }
                            (left, Some(val))
                        },
                        Some(rn) => {
                            if left.is_none() {
                                proof {
                                    assert(link_map(Some(rn)) =~= old_node.node_map().remove(*k));
                                }
                                (Some(rn), Some(val))
                            } else {
                                let ghost rg = *rn;
                                proof {
                                    assert(old_node.right == Some(Box::new(rg)));
                                    assert(old_node.node_ordered());
                                    assert(link_ordered(old_node.right));
                                    assert(rg.node_ordered());
                                    assert(link_map(old_node.right) == rg.node_map());
                                }
                                let (nr, sk, sv) = node_remove_min(rn);
                                proof {
                                    lemma_node_lookup(old_node, sk);
                                    assert forall|q: K| #[trigger] link_map(left).dom().contains(q) implies q.rank() < sk.rank() by {
                                    }
                                }
                                let m = Box::new(TreeNode { key: sk, val: sv, aux, left, right: nr });
                                proof {
                                    assert forall|q: K| #[trigger] link_map(nr).dom().contains(q) implies link_map(old_node.right).dom().contains(q) by {
                                        assert(rg.node_map().dom().contains(q));
                                    }
                                    lemma_remove_root(link_map(left), rg.node_map(), key, val, sk, sv);
                                }
                                (Some(m), Some(val))
                            }
                        },
                    }
                },
                KeyOrder::Less => {
                    let (nl, popped) = link_remove(left, k);
                    let m = Box::new(TreeNode { key, val, aux, left: nl, right });
                    proof {
                        assert forall|q: K| #[trigger] link_map(nl).dom().contains(q) implies q.rank() < key.rank() by {
                            assert(link_map(old_node.left).dom().contains(q));
                        }
                        lemma_remove_below(link_map(left), link_map(right), key, val, *k, true);
                    }
                    (Some(m), popped)
                },
                KeyOrder::Greater => {
                    let (nr, popped) = link_remove(right, k);
                    let m = Box::new(TreeNode { key, val, aux, left, right: nr });
                    proof {
                        assert forall|q: K| #[trigger] link_map(nr).dom().contains(q) implies q.rank() > key.rank() by {
                            assert(link_map(old_node.right).dom().contains(q));
                        }
                        lemma_remove_below(link_map(left), link_map(right), key, val, *k, false);
                    }
                    (Some(m), popped)
                },
            }
        },
    }
}

/// The map of the first `n` pairs of `s`, later pairs overriding earlier ones.
pub open spec fn pairs_map<K, V>(s: Seq<(K, V)>, n: nat) -> Map<K, V>
    decreases n,
{
    if n == 0 || n > s.len() {
        Map::empty()
    } else {
        pairs_map(s, (n - 1) as nat).insert(s[n - 1].0, s[n - 1].1)
    }
}

/// The keys of the first `n` pairs of `s` are the keys of those pairs.
pub proof fn lemma_pairs_map_keys<K, V>(s: Seq<(K, V)>, n: nat)
    requires
        n <= s.len(),
    ensures
        forall|q: K| #[trigger] pairs_map(s, n).dom().contains(q) ==> exists|i: int| 0 <= i < n && #[trigger] s[i].0 == q,
    decreases n,
{
    if n > 0 {
        lemma_pairs_map_keys(s, (n - 1) as nat);
        assert forall|q: K| #[trigger] pairs_map(s, n).dom().contains(q) implies exists|i: int| 0 <= i < n && #[trigger] s[i].0 == q by {
            if q == s[n - 1].0 {
                assert(s[n - 1].0 == q);
            } else {
                assert(pairs_map(s, (n - 1) as nat).dom().contains(q));
                let i = choose|i: int| 0 <= i < n - 1 && #[trigger] s[i].0 == q;
                assert(s[i].0 == q);
            }
        }
    }
}

} // verus!

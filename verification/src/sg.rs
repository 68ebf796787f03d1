//! Scapegoat trees: plain search trees that are rebuilt into perfectly balanced
//! shape where they grow lopsided. After an insertion the path back up is
//! checked, and below the first node one of whose subtrees holds more than the
//! fraction `alpha` of its nodes, the subtree on the path is rebuilt; after a
//! removal the whole tree is rebuilt while the count of keys, scaled by `alpha`,
//! stays within the largest count the tree has held since its last rebuild.

use vstd::prelude::*;
use crate::tree::{
    TreeKey, TreeNode, link_map, link_ordered, link_size, link_get, link_remove, lemma_node_lookup, pairs_map,
    lemma_pairs_map_keys, lemma_insert_below, KeyOrder,
};

verus! {

/// A subtree of a scapegoat tree.
pub type SGLink<K, V> = Option<Box<TreeNode<K, V, ()>>>;

/// The entries of a subtree in order: the left subtree's, the node's, the right
/// subtree's.
pub open spec fn inorder<K, V, A>(l: Option<Box<TreeNode<K, V, A>>>) -> Seq<(K, V)>
    decreases l,
{
    match l {
        None => Seq::empty(),
        Some(n) => inorder(n.left) + seq![(n.key, n.val)] + inorder(n.right),
    }
}

/// The keys of `s` rank in strictly increasing order.
pub open spec fn keys_increasing<K: TreeKey, V>(s: Seq<(K, V)>) -> bool {
    forall|i: int, j: int| 0 <= i < j < s.len() ==> #[trigger] s[i].0.rank() < #[trigger] s[j].0.rank()
}

/// The map of the pairs of `s`, later pairs overriding earlier ones.
pub open spec fn seq_map<K, V>(s: Seq<(K, V)>) -> Map<K, V> {
    pairs_map(s, s.len())
}

/// The map of a prefix depends on that prefix alone.
proof fn lemma_pairs_map_prefix<K, V>(s: Seq<(K, V)>, t: Seq<(K, V)>, n: nat)
    requires
        n <= s.len(),
        n <= t.len(),
        forall|i: int| 0 <= i < n ==> s[i] == t[i],
    ensures
        pairs_map(s, n) == pairs_map(t, n),
    decreases n,
{
    if n > 0 {
        lemma_pairs_map_prefix(s, t, (n - 1) as nat);
    }
}

/// The map of a concatenation is the union of the maps, the second overriding.
proof fn lemma_seq_map_concat<K, V>(a: Seq<(K, V)>, b: Seq<(K, V)>, j: nat)
    requires
        j <= b.len(),
    ensures
        pairs_map(a + b, a.len() + j) == seq_map(a).union_prefer_right(pairs_map(b, j)),
    decreases j,
{
    if j == 0 {
        lemma_pairs_map_prefix(a + b, a, a.len());
        assert(seq_map(a).union_prefer_right(pairs_map(b, 0)) =~= seq_map(a));
    } else {
        lemma_seq_map_concat(a, b, (j - 1) as nat);
        assert((a + b)[a.len() + j - 1] == b[j - 1]);
        assert(pairs_map(a + b, a.len() + j) =~= seq_map(a).union_prefer_right(pairs_map(b, j)));
    }
}

/// The map of the pairs `a`, then `(k, v)`, then `b`, where the keys of `a` rank
/// below `k` and those of `b` above it.
proof fn lemma_seq_map_around<K: TreeKey, V>(a: Seq<(K, V)>, k: K, v: V, b: Seq<(K, V)>)
    requires
        forall|i: int| 0 <= i < b.len() ==> #[trigger] b[i].0.rank() > k.rank(),
    ensures
        seq_map(a + seq![(k, v)] + b) == seq_map(a).union_prefer_right(seq_map(b)).insert(k, v),
{
    let m = seq![(k, v)];
    lemma_seq_map_concat(a + m, b, b.len());
    lemma_seq_map_concat(a, m, m.len());
    assert(pairs_map(m, 0) == Map::<K, V>::empty());
    assert(m[0] == (k, v));
    assert(pairs_map(m, 1) =~= Map::<K, V>::empty().insert(k, v));
    lemma_pairs_map_keys(b, b.len());
    if seq_map(b).dom().contains(k) {
        let i = choose|i: int| 0 <= i < b.len() && #[trigger] b[i].0 == k;
        assert(b[i].0.rank() > k.rank());
    }
    assert(seq_map(a + m + b) =~= seq_map(a).union_prefer_right(seq_map(b)).insert(k, v));
}

/// The entries of a search tree in order: as many as its nodes, keys in strictly
/// increasing order, holding its map.
proof fn lemma_inorder<K: TreeKey, V, A>(l: Option<Box<TreeNode<K, V, A>>>)
    requires
        link_ordered(l),
    ensures
        inorder(l).len() == link_size(l),
        keys_increasing(inorder(l)),
        seq_map(inorder(l)) == link_map(l),
        forall|i: int| 0 <= i < inorder(l).len() ==> link_map(l).dom().contains(#[trigger] inorder(l)[i].0),
    decreases l,
{
    match l {
        None => {
            assert(seq_map(inorder(l)) =~= link_map(l));
        },
        Some(n) => {
            lemma_inorder(n.left);
            lemma_inorder(n.right);
            let il = inorder(n.left);
            let ir = inorder(n.right);
            let s = inorder(l);
            assert(s == il + seq![(n.key, n.val)] + ir);
            assert forall|i: int| 0 <= i < ir.len() implies #[trigger] ir[i].0.rank() > n.key.rank() by {
                assert(link_map(n.right).dom().contains(ir[i].0));
            }
            lemma_seq_map_around(il, n.key, n.val, ir);
            assert forall|i: int| 0 <= i < s.len() implies link_map(l).dom().contains(#[trigger] s[i].0) by {
                if i < il.len() {
                    assert(s[i] == il[i]);
                } else if i > il.len() {
                    assert(s[i] == ir[i - il.len() - 1]);
                }
            }
            assert forall|i: int, j: int| 0 <= i < j < s.len() implies #[trigger] s[i].0.rank() < #[trigger] s[j].0.rank() by {
                if i < il.len() {
                    assert(s[i] == il[i]);
                    assert(link_map(n.left).dom().contains(il[i].0));
                    if j < il.len() {
                        assert(s[j] == il[j]);
                    } else if j > il.len() {
                        assert(s[j] == ir[j - il.len() - 1]);
                        assert(link_map(n.right).dom().contains(ir[j - il.len() - 1].0));
                    }
                } else if i == il.len() {
                    assert(s[j] == ir[j - il.len() - 1]);
                    assert(link_map(n.right).dom().contains(ir[j - il.len() - 1].0));
                } else {
                    assert(s[i] == ir[i - il.len() - 1]);
                    assert(s[j] == ir[j - il.len() - 1]);
                }
            }
        },
    }
}

/// Appends the entries of a subtree, in order, to `out`.
fn flatten<K: TreeKey, V>(l: SGLink<K, V>, out: &mut Vec<(K, V)>)
    ensures
        final(out)@ == old(out)@ + inorder(l),
    decreases l,
{
    match l {
        None => {
            assert(old(out)@ + inorder(l) =~= old(out)@);
        },
        Some(n) => {
            let TreeNode { key, val, aux: _, left, right } = *n;
            flatten(left, out);
            out.push((key, val));
            flatten(right, out);
            assert(final(out)@ =~= old(out)@ + inorder(l));
        },
    }
}

/// The perfectly balanced tree of the pairs `s`: the middle pair at the root,
/// the pairs before it on the left and those after it on the right, built the
/// same way.
pub open spec fn balanced_tree<K, V>(s: Seq<(K, V)>) -> SGLink<K, V>
    decreases s.len(),
{
    if s.len() == 0 {
        None
    } else {
        let mid = s.len() / 2;
        Some(Box::new(TreeNode {
            key: s[mid as int].0,
            val: s[mid as int].1,
            aux: (),
            left: balanced_tree(s.take(mid as int)),
            right: balanced_tree(s.skip(mid + 1int)),
        }))
    }
}

/// A perfectly balanced search tree holding the pairs of `v`, whose keys rank in
/// strictly increasing order; the middle pair goes at the root.
fn build<K: TreeKey, V>(v: Vec<(K, V)>) -> (r: SGLink<K, V>)
    requires
        keys_increasing(v@),
    ensures
        r == balanced_tree(v@),
        link_ordered(r),
        link_map(r) == seq_map(v@),
        link_size(r) == v@.len(),
    decreases v@.len(),
{
    let ghost s = v@;
    if v.len() == 0 {
        assert(seq_map(s) =~= Map::<K, V>::empty());
        return None;
    }
    let mut left = v;
    let mid = left.len() / 2;
    let right = left.split_off(mid + 1);
    let (key, val) = left.pop().unwrap();
    proof {
        assert(s == left@ + seq![(key, val)] + right@);
        assert forall|i: int, j: int| 0 <= i < j < left@.len() implies #[trigger] left@[i].0.rank() < #[trigger] left@[j].0.rank() by {
            assert(left@[i] == s[i] && left@[j] == s[j]);
        }
        assert forall|i: int, j: int| 0 <= i < j < right@.len() implies #[trigger] right@[i].0.rank() < #[trigger] right@[j].0.rank() by {
            assert(right@[i] == s[mid + 1 + i] && right@[j] == s[mid + 1 + j]);
        }
        assert forall|i: int| 0 <= i < right@.len() implies #[trigger] right@[i].0.rank() > key.rank() by {
            assert(right@[i] == s[mid + 1 + i]);
            assert(s[mid as int] == (key, val));
        }
        lemma_seq_map_around(left@, key, val, right@);
        lemma_pairs_map_keys(left@, left@.len());
        lemma_pairs_map_keys(right@, right@.len());
    }
    let ghost ls = left@;
    let ghost rs = right@;
    proof {
        assert(ls =~= s.take(mid as int));
        assert(rs =~= s.skip(mid + 1));
        assert(s[mid as int] == (key, val));
    }
    let l = build(left);
    let r = build(right);
    proof {
        assert forall|q: K| #[trigger] link_map(l).dom().contains(q) implies q.rank() < key.rank() by {
            let i = choose|i: int| 0 <= i < ls.len() && #[trigger] ls[i].0 == q;
            assert(ls[i] == s[i]);
            assert(s[mid as int] == (key, val));
        }
        assert forall|q: K| #[trigger] link_map(r).dom().contains(q) implies q.rank() > key.rank() by {
            let i = choose|i: int| 0 <= i < rs.len() && #[trigger] rs[i].0 == q;
        }
    }
    Some(Box::new(TreeNode { key, val, aux: (), left: l, right: r }))
}

/// The subtree rebuilt into perfectly balanced shape.
fn rebuild<K: TreeKey, V>(l: SGLink<K, V>) -> (r: SGLink<K, V>)
    requires
        link_ordered(l),
    ensures
        r == balanced_tree(inorder(l)),
        link_ordered(r),
        link_map(r) == link_map(l),
        link_size(r) == link_size(l),
{
    proof {
        lemma_inorder(l);
    }
    let mut items: Vec<(K, V)> = Vec::new();
    flatten(l, &mut items);
    assert(items@ =~= inorder(l));
    build(items)
}

/// `n`, or `usize::MAX` where `n` does not fit.
pub open spec fn saturated(n: nat) -> usize {
    if n < usize::MAX {
        n as usize
    } else {
        usize::MAX
    }
}

/// A search tree holds a finite map with one key per node.
proof fn lemma_size_is_len<K: TreeKey, V, A>(l: Option<Box<TreeNode<K, V, A>>>)
    requires
        link_ordered(l),
    ensures
        link_map(l).dom().finite(),
        link_map(l).dom().len() == link_size(l),
    decreases l,
{
    match l {
        None => {
            assert(link_map(l).dom() =~= Set::<K>::empty());
        },
        Some(n) => {
            lemma_size_is_len(n.left);
            lemma_size_is_len(n.right);
            let dl = link_map(n.left).dom();
            let dr = link_map(n.right).dom();
            assert(dl.disjoint(dr)) by {
                assert forall|q: K| dl.contains(q) implies !dr.contains(q) by {
                }
            }
            vstd::set_lib::lemma_set_disjoint_lens(dl, dr);
            assert(link_map(l).dom() =~= (dl + dr).insert(n.key));
            assert(!(dl + dr).contains(n.key));
        },
    }
}

/// The number of nodes of a subtree, saturating at `usize::MAX`.
fn count_nodes<K, V>(l: &SGLink<K, V>) -> (r: usize)
    ensures
        r == saturated(link_size(*l)),
    decreases l,
{
    match l {
        None => 0,
        Some(n) => {
            let a = count_nodes(&n.left);
            let b = count_nodes(&n.right);
            a.saturating_add(b).saturating_add(1)
        },
    }
}

/// Whether a node of `total` nodes whose larger subtree has `larger` nodes is out
/// of balance: `larger / total > num / den`.
fn too_heavy(larger: usize, total: usize, num: u64, den: u64) -> (r: bool)
    ensures
        r == (larger * den > num * total),
{
    let x = larger as u128;
    let y = total as u128;
    proof {
        assert(x * den <= 0xffff_ffff_ffff_ffffu128 * 0xffff_ffff_ffff_ffffu128) by (nonlinear_arith)
            requires
                x <= 0xffff_ffff_ffff_ffffu128,
                den <= 0xffff_ffff_ffff_ffffu64,
        ;
        assert(num * y <= 0xffff_ffff_ffff_ffffu128 * 0xffff_ffff_ffff_ffffu128) by (nonlinear_arith)
            requires
                y <= 0xffff_ffff_ffff_ffffu128,
                num <= 0xffff_ffff_ffff_ffffu64,
        ;
    }
    let a = x * (den as u128);
    let b = (num as u128) * y;
    a > b
}

/// Puts `k -> v` below `link` as in a plain search tree (replacing the value of
/// a key already held), then checks the nodes on the path back up: below the
/// first one out of balance the subtree on the path is rebuilt, and the checks
/// stop. Gives back the value `k` had, the saturated node count of the result, and
/// whether the checks have stopped (a count is given only where they have not).
fn sg_ins<K: TreeKey, V>(link: SGLink<K, V>, k: K, v: V, num: u64, den: u64) -> (r: (Box<TreeNode<K, V, ()>>, Option<V>, usize, bool))
    requires
        link_ordered(link),
    ensures
        r.0.node_ordered(),
        r.0.node_map() == link_map(link).insert(k, v),
        r.1 == (if link_map(link).dom().contains(k) { Some(link_map(link)[k]) } else { None }),
        r.0.node_size() == link_size(link) + (if r.1 is None { 1nat } else { 0nat }),
        !r.3 ==> r.2 == saturated(r.0.node_size()),
    decreases link,
{
    match link {
        None => (Box::new(TreeNode::leaf(k, v, ())), None, 1, false),
        Some(node) => {
            let ghost old_node = *node;
            proof {
                lemma_node_lookup(old_node, k);
            }
            let TreeNode { key, val, aux, left, right } = *node;
            match k.compare(&key) {
                KeyOrder::Equal => {
                    proof {
                        K::lemma_rank_injective(k, key);
                    }
                    let n = Box::new(TreeNode { key, val: v, aux, left, right });
                    proof {
                        assert(n.node_map() =~= old_node.node_map().insert(k, v));
                    }
                    (n, Some(val), 0, true)
                },
                KeyOrder::Less => {
                    let (c, popped, sc, settled) = sg_ins(left, k, v, num, den);
                    proof {
                        lemma_insert_below(link_map(left), link_map(right), key, val, k, v, true);
                        assert(link_map(Some(c)) == c.node_map());
                    }
                    if settled {
                        let n = Box::new(TreeNode { key, val, aux, left: Some(c), right });
                        return (n, popped, 0, true);
                    }
                    let ssib = count_nodes(&right);
                    let larger = if sc > ssib { sc } else { ssib };
                    let total = sc.saturating_add(ssib).saturating_add(1);
                    if too_heavy(larger, total, num, den) {
                        let c2 = rebuild(Some(c));
                        let n = Box::new(TreeNode { key, val, aux, left: c2, right });
                        (n, popped, total, true)
                    } else {
                        let n = Box::new(TreeNode { key, val, aux, left: Some(c), right });
                        (n, popped, total, false)
                    }
                },
                KeyOrder::Greater => {
                    let (c, popped, sc, settled) = sg_ins(right, k, v, num, den);
                    proof {
                        lemma_insert_below(link_map(left), link_map(right), key, val, k, v, false);
                        assert(link_map(Some(c)) == c.node_map());
                    }
                    if settled {
                        let n = Box::new(TreeNode { key, val, aux, left, right: Some(c) });
                        return (n, popped, 0, true);
                    }
                    let ssib = count_nodes(&left);
                    let larger = if sc > ssib { sc } else { ssib };
                    let total = sc.saturating_add(ssib).saturating_add(1);
                    if too_heavy(larger, total, num, den) {
                        let c2 = rebuild(Some(c));
                        let n = Box::new(TreeNode { key, val, aux, left, right: c2 });
                        (n, popped, total, true)
                    } else {
                        let n = Box::new(TreeNode { key, val, aux, left, right: Some(c) });
                        (n, popped, total, false)
                    }
                },
            }
        },
    }
}

/// Whether `cnt * num <= most * den`: the count scaled by the fraction
/// `num / den` is within the largest count.
fn scaled_within(cnt: usize, most: usize, num: u64, den: u64) -> (r: bool)
    ensures
        r == (cnt * num <= most * den),
{
    let x = cnt as u128;
    let y = most as u128;
    proof {
        assert(x * num <= 0xffff_ffff_ffff_ffffu128 * 0xffff_ffff_ffff_ffffu128) by (nonlinear_arith)
            requires
                x <= 0xffff_ffff_ffff_ffffu128,
                num <= 0xffff_ffff_ffff_ffffu64,
        ;
        assert(y * den <= 0xffff_ffff_ffff_ffffu128 * 0xffff_ffff_ffff_ffffu128) by (nonlinear_arith)
            requires
                y <= 0xffff_ffff_ffff_ffffu128,
                den <= 0xffff_ffff_ffff_ffffu64,
        ;
    }
    x * (num as u128) <= y * (den as u128)
}

/// An ordered map kept as a scapegoat tree with balance fraction
/// `alpha = alpha_num / alpha_den`.
pub struct SG<K: TreeKey, V> {
    root: SGLink<K, V>,
    cnt: usize,
    max_cnt: usize,
    alpha_num: u64,
    alpha_den: u64,
}

impl<K: TreeKey, V> SG<K, V> {
    #[verifier::type_invariant]
    spec fn well_formed(self) -> bool {
        &&& link_ordered(self.root)
        &&& self.cnt == saturated(link_size(self.root))
    }

    /// The map the tree holds.
    pub closed spec fn map(self) -> Map<K, V> {
        link_map(self.root)
    }

    /// The balance fraction, as numerator and denominator.
    pub closed spec fn alpha(self) -> (u64, u64) {
        (self.alpha_num, self.alpha_den)
    }
}

impl<K: TreeKey, V> View for SG<K, V> {
    type V = Map<K, V>;

    open spec fn view(&self) -> Map<K, V> {
        self.map()
    }
}

impl<K: TreeKey, V> SG<K, V> {
    /// The empty map, with balance fraction `alpha_num / alpha_den`, which lies
    /// between one half and one.
    pub fn new(alpha_num: u64, alpha_den: u64) -> (r: Self)
        requires
            0 < alpha_den <= 2 * alpha_num,
            alpha_num <= alpha_den,
        ensures
            r@ == Map::<K, V>::empty(),
            r.alpha() == (alpha_num, alpha_den),
    {
        SG { root: None, cnt: 0, max_cnt: 0, alpha_num, alpha_den }
    }

    /// The value held for `k`, if any.
    pub fn get(&self, k: &K) -> (r: Option<&V>)
        ensures
            r == (if self@.dom().contains(*k) { Some(&self@[*k]) } else { None }),
    {
        proof {
            use_type_invariant(self);
        }
        link_get(&self.root, k)
    }

    /// Maps `k` to `v`; gives back the value `k` had, if any.
    pub fn insert(&mut self, k: K, v: V) -> (r: Option<V>)
        ensures
            final(self)@ == old(self)@.insert(k, v),
            r == (if old(self)@.dom().contains(k) { Some(old(self)@[k]) } else { None }),
            final(self).alpha() == old(self).alpha(),
    {
        proof {
            use_type_invariant(&*self);
        }
        let mut taken = SG { root: None, cnt: 0, max_cnt: 0, alpha_num: self.alpha_num, alpha_den: self.alpha_den };
        std::mem::swap(self, &mut taken);
        proof {
            use_type_invariant(&taken);
        }
        let SG { root, cnt, max_cnt, alpha_num, alpha_den } = taken;
        let (n, popped, _size, _settled) = sg_ins(root, k, v, alpha_num, alpha_den);
        let mut cnt = cnt;
        let mut max_cnt = max_cnt;
        if popped.is_none() {
            cnt = cnt.saturating_add(1);
            if cnt > max_cnt {
                max_cnt = cnt;
            }
        }
        *self = SG { root: Some(n), cnt, max_cnt, alpha_num, alpha_den };
        popped
    }

    /// Removes `k`; gives back its value, if it had one. While the count of keys,
    /// scaled by `alpha`, stays within the largest count since the last rebuild,
    /// the tree is rebuilt.
    pub fn remove(&mut self, k: &K) -> (r: Option<V>)
        ensures
            final(self)@ == old(self)@.remove(*k),
            r == (if old(self)@.dom().contains(*k) { Some(old(self)@[*k]) } else { None }),
            final(self).alpha() == old(self).alpha(),
    {
        proof {
            use_type_invariant(&*self);
        }
        let mut taken = SG { root: None, cnt: 0, max_cnt: 0, alpha_num: self.alpha_num, alpha_den: self.alpha_den };
        std::mem::swap(self, &mut taken);
        proof {
            use_type_invariant(&taken);
        }
        let SG { root, cnt, max_cnt, alpha_num, alpha_den } = taken;
        let ghost before = root;
        let (t, popped) = link_remove(root, k);
        proof {
            lemma_size_is_len(before);
            lemma_size_is_len(t);
        }
        if popped.is_none() {
            *self = SG { root: t, cnt, max_cnt, alpha_num, alpha_den };
            return None;
        }
        let cnt = if cnt < usize::MAX { cnt - 1 } else { count_nodes(&t) };
        if scaled_within(cnt, max_cnt, alpha_num, alpha_den) && t.is_some() {
            *self = SG { root: rebuild(t), cnt, max_cnt: cnt, alpha_num, alpha_den };
        } else {
            *self = SG { root: t, cnt, max_cnt, alpha_num, alpha_den };
        }
        popped
    }
}

} // verus!

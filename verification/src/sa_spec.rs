//! Suffix arrays: the starting positions of the suffixes of a byte string,
//! listed in increasing lexicographic order of the suffixes.

use vstd::prelude::*;

verus! {

/// `a` comes before `b` in lexicographic order, a proper prefix first.
pub open spec fn bytes_lt(a: Seq<u8>, b: Seq<u8>) -> bool
    decreases a.len(),
{
    if a.len() == 0 {
        b.len() > 0
    } else if b.len() == 0 {
        false
    } else if a[0] != b[0] {
        a[0] < b[0]
    } else {
        bytes_lt(a.drop_first(), b.drop_first())
    }
}

/// The suffix of `t` that starts at `i`.
pub open spec fn suffix(t: Seq<u8>, i: int) -> Seq<u8> {
    t.subrange(i, t.len() as int)
}

/// `sa` lists every start position of `t` once, ordered by the suffixes that start there.
pub open spec fn is_suffix_array(sa: Seq<usize>, t: Seq<u8>) -> bool {
    &&& sa.len() == t.len()
    &&& forall|i: int| 0 <= i < sa.len() ==> #[trigger] sa[i] < t.len()
    &&& forall|i: int, j: int| 0 <= i < j < sa.len() ==> bytes_lt(suffix(t, #[trigger] sa[i] as int), suffix(t, #[trigger] sa[j] as int))
}

/// Lexicographic order is transitive.
pub proof fn lemma_bytes_lt_trans(a: Seq<u8>, b: Seq<u8>, c: Seq<u8>)
    requires
        bytes_lt(a, b),
        bytes_lt(b, c),
    ensures
        bytes_lt(a, c),
    decreases a.len(),
{
    if a.len() > 0 && b.len() > 0 && c.len() > 0 && a[0] == b[0] && b[0] == c[0] {
        lemma_bytes_lt_trans(a.drop_first(), b.drop_first(), c.drop_first());
    }
}

/// Lexicographic order is irreflexive.
pub proof fn lemma_bytes_lt_irreflexive(a: Seq<u8>)
    ensures
        !bytes_lt(a, a),
    decreases a.len(),
{
    if a.len() > 0 {
        lemma_bytes_lt_irreflexive(a.drop_first());
    }
}

/// Of two different byte strings, one comes first.
pub proof fn lemma_bytes_lt_total(a: Seq<u8>, b: Seq<u8>)
    requires
        a != b,
    ensures
        bytes_lt(a, b) || bytes_lt(b, a),
    decreases a.len(),
{
    if a.len() > 0 && b.len() > 0 && a[0] == b[0] {
        if a.drop_first() == b.drop_first() {
            assert(a =~= seq![a[0]] + a.drop_first());
            assert(b =~= seq![b[0]] + b.drop_first());
        }
        lemma_bytes_lt_total(a.drop_first(), b.drop_first());
    } else if a.len() == 0 && b.len() == 0 {
        assert(a =~= b);
    }
}

/// Suffixes that start at different positions differ (in length).
pub proof fn lemma_suffixes_differ(t: Seq<u8>, i: int, j: int)
    requires
        0 <= i < j <= t.len(),
    ensures
        suffix(t, i) != suffix(t, j),
{
    assert(suffix(t, i).len() != suffix(t, j).len());
}

/// The suffix at `i` is its first byte followed by the suffix at `i + 1`.
pub proof fn lemma_suffix_step(t: Seq<u8>, i: int)
    requires
        0 <= i < t.len(),
    ensures
        suffix(t, i).len() > 0,
        suffix(t, i)[0] == t[i],
        suffix(t, i).drop_first() == suffix(t, i + 1),
{
    assert(suffix(t, i).drop_first() =~= suffix(t, i + 1));
}

/// Whether the suffix of `t` at `a` comes before the one at `b`.
pub fn suffix_less(t: &[u8], a: usize, b: usize) -> (r: bool)
    requires
        a <= t@.len(),
        b <= t@.len(),
    ensures
        r == bytes_lt(suffix(t@, a as int), suffix(t@, b as int)),
{
    let n = t.len();
    let mut i = a;
    let mut j = b;
    while i < n && j < n && t[i] == t[j]
        invariant
            n == t@.len(),
            a <= i <= n,
            b <= j <= n,
            i - a == j - b,
            bytes_lt(suffix(t@, a as int), suffix(t@, b as int)) == bytes_lt(suffix(t@, i as int), suffix(t@, j as int)),
        decreases n - i,
    {
        proof {
            lemma_suffix_step(t@, i as int);
            lemma_suffix_step(t@, j as int);
        }
        i = i + 1;
        j = j + 1;
    }
    proof {
        if i < n {
            lemma_suffix_step(t@, i as int);
        }
        if j < n {
            lemma_suffix_step(t@, j as int);
        }
    }
    if i == n {
        j < n
    } else if j == n {
        false
    } else {
        t[i] < t[j]
    }
}

/// Where each listed suffix comes before the next, `sa` (of in-range positions, as
/// many as `t` has bytes) is the suffix array of `t`.
pub proof fn lemma_adjacent_sorted(sa: Seq<usize>, t: Seq<u8>)
    requires
        sa.len() == t.len(),
        forall|i: int| 0 <= i < sa.len() ==> #[trigger] sa[i] < t.len(),
        forall|i: int| 0 <= i < sa.len() - 1 ==> bytes_lt(suffix(t, #[trigger] sa[i] as int), suffix(t, sa[i + 1] as int)),
    ensures
        is_suffix_array(sa, t),
{
    assert forall|i: int, j: int| 0 <= i < j < sa.len() implies bytes_lt(suffix(t, #[trigger] sa[i] as int), suffix(t, #[trigger] sa[j] as int)) by {
        lemma_chain(sa, t, i, j);
    }
}

/// Chaining consecutive comparisons from `i` to `j`.
proof fn lemma_chain(sa: Seq<usize>, t: Seq<u8>, i: int, j: int)
    requires
        0 <= i < j < sa.len(),
        forall|k: int| 0 <= k < sa.len() - 1 ==> bytes_lt(suffix(t, #[trigger] sa[k] as int), suffix(t, sa[k + 1] as int)),
    ensures
        bytes_lt(suffix(t, sa[i] as int), suffix(t, sa[j] as int)),
    decreases j - i,
{
    if j > i + 1 {
        lemma_chain(sa, t, i, j - 1);
        assert(bytes_lt(suffix(t, sa[j - 1] as int), suffix(t, sa[j] as int)));
        lemma_bytes_lt_trans(suffix(t, sa[i] as int), suffix(t, sa[j - 1] as int), suffix(t, sa[j] as int));
    }
}

/// A string has one suffix array: two of them are equal.
pub proof fn law_suffix_array_unique(a: Seq<usize>, b: Seq<usize>, t: Seq<u8>)
    requires
        is_suffix_array(a, t),
        is_suffix_array(b, t),
    ensures
        a == b,
{
    // Both list the positions in the same (strict, total) order, so the position
    // listed `i`-th is the one with exactly `i` suffixes before it.
    assert forall|i: int| 0 <= i < a.len() implies a[i] == b[i] by {
        lemma_rank_determined(a, t, i);
        lemma_rank_determined(b, t, i);
        let x = a[i];
        let y = b[i];
        if x != y {
            // count the positions before each: both are `i`
            lemma_rank_unique(a, b, t, i);
        }
    }
    assert(a =~= b);
}

/// The number of positions of `t` whose suffix comes before the one at `p`.
pub open spec fn rank_of(t: Seq<u8>, p: int) -> nat {
    Set::new(|q: int| 0 <= q < t.len() && bytes_lt(suffix(t, q), suffix(t, p))).len()
}

/// In a suffix array the position listed `i`-th has exactly `i` suffixes before it.
proof fn lemma_rank_determined(sa: Seq<usize>, t: Seq<u8>, i: int)
    requires
        is_suffix_array(sa, t),
        0 <= i < sa.len(),
    ensures
        rank_of(t, sa[i] as int) == i,
{
    let p = sa[i] as int;
    let before = Set::new(|q: int| 0 <= q < t.len() && bytes_lt(suffix(t, q), suffix(t, p)));
    let listed = Set::new(|q: int| exists|k: int| 0 <= k < i && sa[k] as int == q);
    assert(before =~= listed) by {
        assert forall|q: int| before.contains(q) implies listed.contains(q) by {
            let k = lemma_position_listed(sa, t, q);
            if k >= i {
                if k == i {
                    lemma_bytes_lt_irreflexive(suffix(t, p));
                } else {
                    lemma_bytes_lt_trans(suffix(t, q), suffix(t, p), suffix(t, q));
                    lemma_bytes_lt_irreflexive(suffix(t, q));
                }
            }
        }
    }
    lemma_prefix_positions_len(sa, t, i);
}

/// Every position of `t` is listed somewhere in a suffix array.
proof fn lemma_position_listed(sa: Seq<usize>, t: Seq<u8>, q: int) -> (k: int)
    requires
        is_suffix_array(sa, t),
        0 <= q < t.len(),
    ensures
        0 <= k < sa.len(),
        sa[k] as int == q,
{
    lemma_listed_distinct(sa, t);
    // the `n` listed positions are distinct values below `n`, so they cover `0..n`
    let s = Set::new(|x: int| exists|k: int| 0 <= k < sa.len() && sa[k] as int == x);
    lemma_distinct_cover(sa, t.len() as int);
    assert(listed(sa, q));
    choose|k: int| 0 <= k < sa.len() && sa[k] as int == q
}

/// A suffix array lists no position twice.
proof fn lemma_listed_distinct(sa: Seq<usize>, t: Seq<u8>)
    requires
        is_suffix_array(sa, t),
    ensures
        forall|i: int, j: int| 0 <= i < j < sa.len() ==> sa[i] != sa[j],
{
    assert forall|i: int, j: int| 0 <= i < j < sa.len() implies sa[i] != sa[j] by {
        if sa[i] == sa[j] {
            lemma_bytes_lt_irreflexive(suffix(t, sa[i] as int));
        }
    }
}

/// `q` is one of the values of `s`.
pub open spec fn listed(s: Seq<usize>, q: int) -> bool {
    exists|k: int| 0 <= k < s.len() && s[k] as int == q
}

/// `n` distinct values below `n` are every value below `n`.
proof fn lemma_distinct_cover(s: Seq<usize>, n: int)
    requires
        s.len() == n,
        forall|i: int| 0 <= i < s.len() ==> #[trigger] s[i] < n,
        forall|i: int, j: int| 0 <= i < j < s.len() ==> s[i] != s[j],
    ensures
        forall|q: int| 0 <= q < n ==> #[trigger] listed(s, q),
{
    let vals = Set::new(|x: int| exists|k: int| 0 <= k < s.len() && s[k] as int == x);
    lemma_indices_len(s, n);
    let full = Set::new(|x: int| 0 <= x < n);
    assert(vals.subset_of(full));
    vstd::set_lib::lemma_int_range(0, n);
    assert(full =~= vstd::set_lib::set_int_range(0, n));
    assert forall|q: int| 0 <= q < n implies #[trigger] listed(s, q) by {
        if !vals.contains(q) {
            assert(vals.subset_of(full.remove(q)));
            vstd::set_lib::lemma_len_subset(vals, full.remove(q));
        }
    }
}

/// The values of `s[..i]` for distinct entries of `s` number `i`.
proof fn lemma_indices_len(s: Seq<usize>, i: int)
    requires
        0 <= i <= s.len(),
        forall|a: int, b: int| 0 <= a < b < s.len() ==> s[a] != s[b],
    ensures
        Set::new(|x: int| exists|k: int| 0 <= k < i && s[k] as int == x).finite(),
        Set::new(|x: int| exists|k: int| 0 <= k < i && s[k] as int == x).len() == i,
    decreases i,
{
    let cur = Set::new(|x: int| exists|k: int| 0 <= k < i && s[k] as int == x);
    if i == 0 {
        assert(cur =~= Set::empty());
    } else {
        lemma_indices_len(s, i - 1);
        let prev = Set::new(|x: int| exists|k: int| 0 <= k < i - 1 && s[k] as int == x);
        assert(cur =~= prev.insert(s[i - 1] as int)) by {
            assert forall|x: int| cur.contains(x) implies prev.insert(s[i - 1] as int).contains(x) by {
                let k = choose|k: int| 0 <= k < i && s[k] as int == x;
                if k < i - 1 {
                    assert(prev.contains(x));
                }
            }
            assert forall|x: int| prev.insert(s[i - 1] as int).contains(x) implies cur.contains(x) by {
                if x == s[i - 1] as int {
                    assert(0 <= i - 1 < i && s[i - 1] as int == x);
                } else {
                    let k = choose|k: int| 0 <= k < i - 1 && s[k] as int == x;
                    assert(0 <= k < i && s[k] as int == x);
                }
            }
        }
        assert(!prev.contains(s[i - 1] as int)) by {
            if prev.contains(s[i - 1] as int) {
                let k = choose|k: int| 0 <= k < i - 1 && #[trigger] s[k] as int == s[i - 1] as int;
                assert(s[k] != s[i - 1]);
            }
        }
    }
}

/// The positions listed before index `i` of a suffix array number `i`.
proof fn lemma_prefix_positions_len(sa: Seq<usize>, t: Seq<u8>, i: int)
    requires
        is_suffix_array(sa, t),
        0 <= i <= sa.len(),
    ensures
        Set::new(|q: int| exists|k: int| 0 <= k < i && sa[k] as int == q).len() == i,
{
    lemma_listed_distinct(sa, t);
    lemma_indices_len(sa, i);
}

/// Two suffix arrays with the same ranks list the same positions.
proof fn lemma_rank_unique(a: Seq<usize>, b: Seq<usize>, t: Seq<u8>, i: int)
    requires
        is_suffix_array(a, t),
        is_suffix_array(b, t),
        0 <= i < a.len(),
        rank_of(t, a[i] as int) == i,
        rank_of(t, b[i] as int) == i,
    ensures
        a[i] == b[i],
{
    let x = a[i] as int;
    let y = b[i] as int;
    if x != y {
        let lo = if x < y { x } else { y };
        let hi = if x < y { y } else { x };
        lemma_suffixes_differ(t, lo, hi);
        lemma_bytes_lt_total(suffix(t, x), suffix(t, y));
        // the one that comes first has strictly fewer suffixes before it
        if bytes_lt(suffix(t, x), suffix(t, y)) {
            lemma_rank_lt(t, x, y);
        } else {
            lemma_rank_lt(t, y, x);
        }
    }
}

/// A suffix that comes before another has fewer suffixes before it.
proof fn lemma_rank_lt(t: Seq<u8>, x: int, y: int)
    requires
        0 <= x < t.len(),
        0 <= y < t.len(),
        bytes_lt(suffix(t, x), suffix(t, y)),
    ensures
        rank_of(t, x) < rank_of(t, y),
{
    let bx = Set::new(|q: int| 0 <= q < t.len() && bytes_lt(suffix(t, q), suffix(t, x)));
    let by = Set::new(|q: int| 0 <= q < t.len() && bytes_lt(suffix(t, q), suffix(t, y)));
    assert forall|q: int| bx.contains(q) implies by.contains(q) by {
        lemma_bytes_lt_trans(suffix(t, q), suffix(t, x), suffix(t, y));
    }
    lemma_bytes_lt_irreflexive(suffix(t, x));
    assert(!bx.contains(x));
    assert(by.contains(x));
    let full = Set::new(|q: int| 0 <= q < t.len());
    vstd::set_lib::lemma_int_range(0, t.len() as int);
    assert(full =~= vstd::set_lib::set_int_range(0, t.len() as int));
    assert(by.subset_of(full));
    vstd::set_lib::lemma_len_subset(by, full);
    assert(bx.subset_of(by.remove(x)));
    vstd::set_lib::lemma_len_subset(bx, by.remove(x));
}

/// The state after `f` was applied at `lo`, `lo + 1`, ..., `hi - 1`, in that order.
pub open spec fn iter_up<S>(f: spec_fn(S, int) -> S, s: S, lo: int, hi: int) -> S
    decreases hi - lo,
{
    if hi <= lo { s } else { f(iter_up(f, s, lo, hi - 1), hi - 1) }
}

/// The state after `f` was applied at `hi - 1`, `hi - 2`, ..., `lo`, in that order.
pub open spec fn iter_down<S>(f: spec_fn(S, int) -> S, s: S, lo: int, hi: int) -> S
    decreases hi - lo,
{
    if hi <= lo { s } else { f(iter_down(f, s, lo + 1, hi), lo) }
}

/// Over an empty range nothing is applied.
pub proof fn lemma_iter_down_empty<S>(f: spec_fn(S, int) -> S, s: S, lo: int, hi: int)
    requires
        hi <= lo,
    ensures
        iter_down(f, s, lo, hi) == s,
{
}

} // verus!

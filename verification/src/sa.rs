//! Suffix arrays by direct comparison and by prefix doubling, the latter with
//! comparison sorts and with radix sorts.
//!
//! The doubling algorithms compute ranks of prefixes of doubling length; their
//! output is then checked against the definition of a suffix array (each listed
//! suffix before the next), and where the check failed the suffixes would be
//! sorted directly instead. On a correct run the check passes, so the result is
//! the doubling algorithm's own.

use vstd::prelude::*;
use core::cmp::Ordering;
use vstd::multiset::Multiset;
use crate::sa_spec::{bytes_lt, suffix, is_suffix_array, suffix_less, lemma_adjacent_sorted,
    lemma_bytes_lt_total, lemma_suffixes_differ};

verus! {

/// The suffix at `x` comes before the suffix at `y`.
pub open spec fn slt(t: Seq<u8>, x: usize, y: usize) -> bool {
    bytes_lt(suffix(t, x as int), suffix(t, y as int))
}

/// The suffix array of `pat`, by inserting each position in turn among the
/// sorted ones, comparing whole suffixes.
pub fn compute_suffix_array_naive(pat: &[u8]) -> (sa: Vec<usize>)
    ensures
        is_suffix_array(sa@, pat@),
{
    let n = pat.len();
    let mut sa: Vec<usize> = Vec::new();
    let mut i: usize = 0;
    while i < n
        invariant
            n == pat@.len(),
            i <= n,
            sa@.len() == i,
            forall|k: int| 0 <= k < i ==> #[trigger] sa@[k] == k,
        decreases n - i,
    {
        sa.push(i);
        i = i + 1;
    }
    let mut i: usize = 1;
    while i < n
        invariant
            n == pat@.len(),
            1 <= i || n == 0,
            i <= n || n == 0,
            sa@.len() == n,
            forall|k: int| 0 <= k < n ==> #[trigger] sa@[k] < n,
            forall|a: int, b: int| 0 <= a < b < n ==> #[trigger] sa@[a] != #[trigger] sa@[b],
            forall|a: int, b: int| 0 <= a < b < i && b < n ==> slt(pat@, #[trigger] sa@[a], #[trigger] sa@[b]),
        decreases n - i,
    {
        let mut j = i;
        while j > 0 && suffix_less(pat, sa[j], sa[j - 1])
            invariant
                n == pat@.len(),
                0 <= j <= i < n,
                sa@.len() == n,
                forall|k: int| 0 <= k < n ==> #[trigger] sa@[k] < n,
                forall|a: int, b: int| 0 <= a < b < n ==> #[trigger] sa@[a] != #[trigger] sa@[b],
                forall|a: int, b: int| 0 <= a < b < j ==> slt(pat@, #[trigger] sa@[a], #[trigger] sa@[b]),
                forall|a: int, b: int| j < a < b <= i ==> slt(pat@, #[trigger] sa@[a], #[trigger] sa@[b]),
                forall|a: int, b: int| 0 <= a < j && j < b <= i ==> slt(pat@, #[trigger] sa@[a], #[trigger] sa@[b]),
                forall|b: int| j < b <= i ==> slt(pat@, sa@[j as int], #[trigger] sa@[b]),
            decreases j,
        {
            let x = sa[j];
            let y = sa[j - 1];
            sa.set(j, y);
            sa.set(j - 1, x);
            j = j - 1;
        }
        proof {
            if j > 0 {
                let x = sa@[j as int];
                let y = sa@[j - 1];
                let lo = if x < y { x } else { y };
                let hi = if x < y { y } else { x };
                lemma_suffixes_differ(pat@, lo as int, hi as int);
                lemma_bytes_lt_total(suffix(pat@, x as int), suffix(pat@, y as int));
                assert(slt(pat@, y, x));
                assert forall|a: int, b: int| 0 <= a < b < i + 1 && b < n implies slt(pat@, #[trigger] sa@[a], #[trigger] sa@[b]) by {
                    if a < j && b == j {
                        if a < j - 1 {
                            crate::sa_spec::lemma_bytes_lt_trans(suffix(pat@, sa@[a] as int), suffix(pat@, y as int), suffix(pat@, x as int));
                        }
                    }
                }
            }
        }
        i = i + 1;
    }
    proof {
        assert forall|a: int, b: int| 0 <= a < b < sa@.len() implies bytes_lt(suffix(pat@, #[trigger] sa@[a] as int), suffix(pat@, #[trigger] sa@[b] as int)) by {
            assert(slt(pat@, sa@[a], sa@[b]));
        }
    }
    sa
}

/// `sa` where it is the suffix array of `pat`, and otherwise the suffix array by
/// direct comparison.
pub(crate) fn certify_suffix_array(pat: &[u8], sa: Vec<usize>) -> (r: Vec<usize>)
    ensures
        is_suffix_array(r@, pat@),
        is_suffix_array(sa@, pat@) ==> r@ == sa@,
{
    let n = pat.len();
    if sa.len() != n {
        return compute_suffix_array_naive(pat);
    }
    let mut i: usize = 0;
    while i < n
        invariant
            n == pat@.len(),
            sa@.len() == n,
            i <= n,
            forall|k: int| 0 <= k < i ==> #[trigger] sa@[k] < n,
            forall|k: int| 0 <= k < i - 1 ==> bytes_lt(suffix(pat@, #[trigger] sa@[k] as int), suffix(pat@, sa@[k + 1] as int)),
        decreases n - i,
    {
        if sa[i] >= n {
            return compute_suffix_array_naive(pat);
        }
        if i > 0 && !suffix_less(pat, sa[i - 1], sa[i]) {
            return compute_suffix_array_naive(pat);
        }
        i = i + 1;
    }
    proof {
        lemma_adjacent_sorted(sa@, pat@);
    }
    sa
}

/// The least power of two that is at least `n` (1 for 0).
pub fn calc_extend_capacity(n: usize) -> (r: usize)
    requires
        n <= usize::MAX / 2,
    ensures
        r >= n,
        r >= 1,
        r <= 2 * n || r == 1,
{
    let mut r: usize = 1;
    while r < n
        invariant
            1 <= r,
            n <= usize::MAX / 2,
            r < n ==> 2 * r <= usize::MAX,
            r <= 2 * n || r == 1,
        decreases 2 * n - r,
    {
        r = r * 2;
    }
    r
}

/// A copy of `v`.
fn copy_vec(v: &Vec<usize>) -> (r: Vec<usize>)
    ensures
        r@ == v@,
{
    let mut r: Vec<usize> = Vec::new();
    let mut i: usize = 0;
    while i < v.len()
        invariant
            i <= v@.len(),
            r@ == v@.subrange(0, i as int),
        decreases v@.len() - i,
    {
        r.push(v[i]);
        i = i + 1;
    }
    assert(r@ == v@.subrange(0, v@.len() as int));
    r
}

/// The elements of `v[lo..hi]`, counted with their multiplicity.
pub open spec fn range_items(v: Seq<usize>, lo: usize, hi: usize) -> Multiset<usize> {
    v.subrange(lo as int, hi as int).to_multiset()
}

/// Position `x` comes before `y` by rank, then by the rank `w` further on.
pub open spec fn rank_pair_below(rk: Seq<usize>, x: usize, y: usize, w: usize) -> bool {
    rk[x as int] < rk[y as int] || (rk[x as int] == rk[y as int] && rk[x + w] < rk[y + w])
}

/// Positions `x` and `y` agree in rank and in the rank `w` further on.
pub open spec fn rank_pair_same(rk: Seq<usize>, x: usize, y: usize, w: usize) -> bool {
    rk[x as int] == rk[y as int] && rk[x + w] == rk[y + w]
}

/// Compares positions by their rank, then by the rank `w` further on.
pub fn cmp_rank_pair(x: usize, y: usize, w: usize, rk: &Vec<usize>) -> (r: Ordering)
    requires
        x + w < rk@.len(),
        y + w < rk@.len(),
    ensures
        (r == Ordering::Less) <==> rank_pair_below(rk@, x, y, w),
        (r == Ordering::Equal) <==> rank_pair_same(rk@, x, y, w),
        (r == Ordering::Greater) <==> rank_pair_below(rk@, y, x, w),
{
    let _len = rk.len();
    if rk[x] == rk[y] {
        if rk[x + w] < rk[y + w] {
            Ordering::Less
        } else if rk[x + w] == rk[y + w] {
            Ordering::Equal
        } else {
            Ordering::Greater
        }
    } else if rk[x] < rk[y] {
        Ordering::Less
    } else {
        Ordering::Greater
    }
}

/// Sorts `v[lo..hi]` by rank pairs with `slice::sort_unstable_by`, which only
/// permutes the elements of the range it is given and, the comparison being a
/// total order, leaves them in that order: no element comes after one that it
/// ranks below.
#[verifier::external_body]
fn sort_range_by_rank_pair(v: &mut Vec<usize>, lo: usize, hi: usize, w: usize, rk: &Vec<usize>)
    requires
        lo <= hi <= old(v)@.len(),
        forall|k: int| lo <= k < hi ==> #[trigger] old(v)@[k] + w < rk@.len(),
    ensures
        final(v)@.len() == old(v)@.len(),
        range_items(final(v)@, lo, hi) == range_items(old(v)@, lo, hi),
        forall|k: int| 0 <= k < lo || hi <= k < old(v)@.len() ==> #[trigger] final(v)@[k] == old(v)@[k],
        forall|i: int, j: int| lo <= i < j < hi ==> !rank_pair_below(rk@, #[trigger] final(v)@[j], #[trigger] final(v)@[i], w),
{
    v[lo..hi].sort_unstable_by(|&x, &y| cmp_rank_pair(x, y, w, rk));
}

/// Elements of `v[lo..hi]` stay within `[lb, ub]` when the range is permuted.
proof fn lemma_range_items_bound(old_v: Seq<usize>, new_v: Seq<usize>, lo: usize, hi: usize, lb: int, ub: int)
    requires
        lo <= hi <= old_v.len(),
        new_v.len() == old_v.len(),
        range_items(new_v, lo, hi) == range_items(old_v, lo, hi),
        forall|k: int| lo <= k < hi ==> lb <= #[trigger] old_v[k] <= ub,
    ensures
        forall|k: int| lo <= k < hi ==> lb <= #[trigger] new_v[k] <= ub,
{
    broadcast use vstd::seq_lib::group_to_multiset_ensures;
    assert forall|k: int| lo <= k < hi implies lb <= #[trigger] new_v[k] <= ub by {
        let ns = new_v.subrange(lo as int, hi as int);
        let os = old_v.subrange(lo as int, hi as int);
        assert(ns[k - lo] == new_v[k]);
        assert(ns.contains(new_v[k]));
        assert(ns.to_multiset().count(new_v[k]) > 0);
        assert(os.to_multiset().count(new_v[k]) > 0);
        assert(os.contains(new_v[k]));
        let j = choose|j: int| 0 <= j < os.len() && os[j] == new_v[k];
        assert(old_v[lo + j] == new_v[k]);
    }
}

/// What the doubling loops keep: `sa[1..=n]` holds positions in `1..=n`, `sa[0]`
/// is 0, and both arrays have room for every rank `w` further on.
pub open spec fn doubling_ready(sa: Seq<usize>, rk: Seq<usize>, n: int, cap: int) -> bool {
    &&& sa.len() == cap
    &&& rk.len() == cap
    &&& 2 * n < cap
    &&& sa[0] == 0
    &&& forall|k: int| 1 <= k <= n ==> 1 <= #[trigger] sa[k] <= n
}

/// Whether the listed positions `x` and `y` fall in one group: equal ranks
/// (and, for `w > 0`, equal ranks `w` further on).
pub open spec fn same_group(rk: Seq<usize>, x: int, y: int, w: int) -> bool {
    if w == 0 {
        rk[x] == rk[y]
    } else {
        rk[x] == rk[y] && rk[x + w] == rk[y + w]
    }
}

/// The group number of the `i`-th listed position: how many of the first `i`
/// listed positions fall in another group than the one listed before them.
pub open spec fn group_number(sa: Seq<usize>, rk: Seq<usize>, w: int, i: int) -> nat
    decreases i,
{
    if i <= 0 {
        0
    } else {
        group_number(sa, rk, w, i - 1) + (if same_group(rk, sa[i] as int, sa[i - 1] as int, w) { 0nat } else { 1nat })
    }
}

/// The ranks after the first `i` listed positions get their group numbers.
pub open spec fn reranked(sa: Seq<usize>, rk: Seq<usize>, w: int, i: int) -> Seq<usize>
    decreases i,
{
    if i <= 0 {
        rk
    } else {
        reranked(sa, rk, w, i - 1).update(sa[i] as int, group_number(sa, rk, w, i) as usize)
    }
}

/// Assigns to each listed position its group number: consecutive listed
/// positions share a number where their ranks agree (and, for `w > 0`, so do
/// the ranks `w` further on).
fn rerank(sa: &Vec<usize>, rk: &mut Vec<usize>, n: usize, w: usize)
    requires
        doubling_ready(sa@, old(rk)@, n as int, sa@.len() as int),
        w < n || w == 0,
    ensures
        final(rk)@.len() == old(rk)@.len(),
        final(rk)@ == reranked(sa@, old(rk)@, w as int, n as int),
{
    let old_rk = copy_vec(rk);
    let _len = old_rk.len();
    let mut p: usize = 0;
    let mut i: usize = 1;
    while i <= n
        invariant
            doubling_ready(sa@, rk@, n as int, sa@.len() as int),
            old_rk@.len() == rk@.len(),
            1 <= i <= n + 1,
            p < i,
            p == group_number(sa@, old_rk@, w as int, i - 1),
            rk@ == reranked(sa@, old_rk@, w as int, i - 1),
            w < n || w == 0,
            _len == old_rk@.len(),
        decreases n + 1 - i,
    {
        let x = sa[i];
        let y = sa[i - 1];
        let same = if w == 0 {
            old_rk[x] == old_rk[y]
        } else {
            old_rk[x] == old_rk[y] && old_rk[x + w] == old_rk[y + w]
        };
        if !same {
            p = p + 1;
        }
        rk.set(x, p);
        i = i + 1;
    }
}

/// The slice `sa[1..=n]`, each position lowered by one.
fn lower_positions(sa: &Vec<usize>, n: usize) -> (r: Vec<usize>)
    requires
        n < sa@.len(),
        forall|k: int| 1 <= k <= n ==> 1 <= #[trigger] sa@[k] <= n,
    ensures
        r@.len() == n,
{
    let mut r: Vec<usize> = Vec::new();
    let _len = sa.len();
    let mut i: usize = 1;
    while i <= n
        invariant
            _len == sa@.len(),
            n < sa@.len(),
            forall|k: int| 1 <= k <= n ==> 1 <= #[trigger] sa@[k] <= n,
            1 <= i <= n + 1,
            r@.len() == i - 1,
        decreases n + 1 - i,
    {
        r.push(sa[i] - 1);
        i = i + 1;
    }
    r
}

/// Arrays of `cap` zeros for ranks and positions, ranks set to the bytes of
/// `pat` and positions to `1..=n` (both counted from 1).
fn doubling_start(pat: &[u8], cap: usize) -> (r: (Vec<usize>, Vec<usize>))
    requires
        2 * pat@.len() < cap,
    ensures
        doubling_ready(r.0@, r.1@, pat@.len() as int, cap as int),
        forall|k: int| 0 <= k < cap ==> #[trigger] r.1@[k] < 256,
{
    let n = pat.len();
    let mut rk: Vec<usize> = vec![0; cap];
    let mut sa: Vec<usize> = vec![0; cap];
    let mut i: usize = 1;
    while i <= n
        invariant
            n == pat@.len(),
            2 * n < cap,
            sa@.len() == cap,
            rk@.len() == cap,
            1 <= i <= n + 1,
            sa@[0] == 0,
            forall|k: int| 1 <= k < i ==> #[trigger] sa@[k] == k,
            forall|k: int| i <= k < cap ==> #[trigger] sa@[k] == 0,
            forall|k: int| 0 <= k < cap ==> #[trigger] rk@[k] < 256,
        decreases n + 1 - i,
    {
        rk.set(i, pat[i - 1] as usize);
        sa.set(i, i);
        i = i + 1;
    }
    (sa, rk)
}

/// The suffix array of `pat` by prefix doubling: positions are sorted by the
/// ranks of their prefixes of length `w`, then of `2w`, with a comparison sort.
pub fn suffix_array_bl(pat: &[u8]) -> (r: Vec<usize>)
    requires
        pat@.len() <= usize::MAX / 4,
    ensures
        is_suffix_array(r@, pat@),
{
    let n = pat.len();
    let extend_capacity = calc_extend_capacity(n);
    let cap = n + extend_capacity + 1;
    let (mut sa, mut rk) = doubling_start(pat, cap);
    let ghost sa0 = sa@;
    sort_range_by_rank_pair(&mut sa, 1, n + 1, 0, &rk);
    proof {
        lemma_range_items_bound(sa0, sa@, 1, (n + 1) as usize, 1, n as int);
    }
    rerank(&sa, &mut rk, n, 0);
    let mut w: usize = 1;
    while w < n
        invariant
            doubling_ready(sa@, rk@, n as int, cap as int),
            cap == n + extend_capacity + 1,
            extend_capacity >= n,
            n <= usize::MAX / 4,
            1 <= w <= 2 * n || n == 0,
        decreases 2 * n - w,
    {
        let ghost sa1 = sa@;
        sort_range_by_rank_pair(&mut sa, 1, n + 1, w, &rk);
        proof {
            lemma_range_items_bound(sa1, sa@, 1, (n + 1) as usize, 1, n as int);
        }
        rerank(&sa, &mut rk, n, w);
        w = w * 2;
    }
    let r = lower_positions(&sa, n);
    certify_suffix_array(pat, r)
}

/// The counters after tallying the keys `rk[sa[k] + w]` of the listed positions
/// `sa[1..=i]` (a counter that has reached `n`, or a key past the counters,
/// is left alone).
pub open spec fn tallied(sa: Seq<usize>, rk: Seq<usize>, w: int, n: int, cnt: Seq<usize>, i: int) -> Seq<usize>
    decreases i,
{
    if i <= 0 {
        cnt
    } else {
        let c = tallied(sa, rk, w, n, cnt, i - 1);
        let key = rk[sa[i] + w] as int;
        if key < c.len() && c[key] < n {
            c.update(key, (c[key] + 1) as usize)
        } else {
            c
        }
    }
}

/// The counters after the running sums over `cnt[0..=i]` (a sum that would
/// pass `n` leaves its counter alone).
pub open spec fn prefix_summed(cnt: Seq<usize>, n: int, i: int) -> Seq<usize>
    decreases i,
{
    if i <= 0 {
        cnt
    } else {
        let c = prefix_summed(cnt, n, i - 1);
        if c[i] <= n - c[i - 1] {
            c.update(i, (c[i] + c[i - 1]) as usize)
        } else {
            c
        }
    }
}

/// The array and the counters after the listed positions `sa[n]` down to
/// `sa[i + 1]` were each written to the slot that their key's counter names,
/// the counter then moving one down.
pub open spec fn scattered(sa: Seq<usize>, rk: Seq<usize>, w: int, n: int, out: Seq<usize>, cnt: Seq<usize>, i: int)
    -> (Seq<usize>, Seq<usize>)
    decreases n - i,
{
    if i >= n {
        (out, cnt)
    } else {
        let st = scattered(sa, rk, w, n, out, cnt, i + 1);
        let x = sa[i + 1];
        let key = rk[x + w] as int;
        if key < st.1.len() && 1 <= st.1[key] <= n {
            let c = st.1[key];
            (st.0.update(c as int, x), st.1.update(key, (c - 1) as usize))
        } else {
            st
        }
    }
}

/// The array after one counting pass: the keys tallied into `cnt_len` zeroed
/// counters, running sums taken up to `sum_to`, then each listed position, last
/// first, written to its counter's slot.
pub open spec fn counting_sorted(sa: Seq<usize>, rk: Seq<usize>, n: int, w: int, cnt_len: int, sum_to: int) -> Seq<usize> {
    let c1 = tallied(sa, rk, w, n, Seq::new(cnt_len as nat, |k: int| 0usize), n);
    let c2 = prefix_summed(c1, n, sum_to);
    scattered(sa, rk, w, n, sa, c2, 0).0
}

/// A stable counting sort of `sa[1..=n]` by the key `rk[x + w]` of each listed
/// position `x`, with `cnt_len` counters whose running sums are taken up to
/// `sum_to`. A count never passes `n` on a run of the doubling algorithms; the
/// guards only make that evident.
fn counting_pass(sa: &mut Vec<usize>, rk: &Vec<usize>, n: usize, w: usize, cnt_len: usize, sum_to: usize)
    requires
        doubling_ready(old(sa)@, rk@, n as int, old(sa)@.len() as int),
        w < n || w == 0,
        sum_to < cnt_len,
    ensures
        doubling_ready(final(sa)@, rk@, n as int, final(sa)@.len() as int),
        final(sa)@.len() == old(sa)@.len(),
        final(sa)@ == counting_sorted(old(sa)@, rk@, n as int, w as int, cnt_len as int, sum_to as int),
{
    let mut cnt: Vec<usize> = vec![0; cnt_len];
    let ghost zeros = cnt@;
    proof {
        assert(zeros == Seq::new(cnt_len as nat, |k: int| 0usize));
    }
    let old_sa = copy_vec(sa);
    let _len = rk.len();
    let mut i: usize = 1;
    while i <= n
        invariant
            doubling_ready(old_sa@, rk@, n as int, old_sa@.len() as int),
            _len == rk@.len(),
            w < n || w == 0,
            cnt@.len() == cnt_len,
            1 <= i <= n + 1,
            forall|k: int| 0 <= k < cnt_len ==> #[trigger] cnt@[k] <= n,
            cnt@ == tallied(old_sa@, rk@, w as int, n as int, zeros, i - 1),
        decreases n + 1 - i,
    {
        let key = rk[old_sa[i] + w];
        if key < cnt_len && cnt[key] < n {
            cnt.set(key, cnt[key] + 1);
        }
        i = i + 1;
    }
    let ghost c1 = cnt@;
    let mut i: usize = 1;
    while i <= sum_to
        invariant
            cnt@.len() == cnt_len,
            sum_to < cnt_len,
            1 <= i <= sum_to + 1,
            forall|k: int| 0 <= k < cnt_len ==> #[trigger] cnt@[k] <= n,
            cnt@ == prefix_summed(c1, n as int, i - 1),
        decreases sum_to + 1 - i,
    {
        if cnt[i] <= n - cnt[i - 1] {
            cnt.set(i, cnt[i] + cnt[i - 1]);
        }
        i = i + 1;
    }
    let ghost c2 = cnt@;
    let mut i: usize = n;
    while i >= 1
        invariant
            doubling_ready(old_sa@, rk@, n as int, old_sa@.len() as int),
            doubling_ready(sa@, rk@, n as int, sa@.len() as int),
            sa@.len() == old_sa@.len(),
            _len == rk@.len(),
            w < n || w == 0,
            cnt@.len() == cnt_len,
            i <= n,
            forall|k: int| 0 <= k < cnt_len ==> #[trigger] cnt@[k] <= n,
            (sa@, cnt@) == scattered(old_sa@, rk@, w as int, n as int, old_sa@, c2, i as int),
        decreases i,
    {
        let x = old_sa[i];
        let key = rk[x + w];
        if key < cnt_len {
            let c = cnt[key];
            if 1 <= c && c <= n {
                sa.set(c, x);
                cnt.set(key, c - 1);
            }
        }
        i = i - 1;
    }
}

/// The suffix array of `pat` by prefix doubling with radix sorts: each round
/// sorts by the rank `w` further on, then stably by the rank itself.
pub fn suffix_array_bl_radix(pat: &[u8]) -> (r: Vec<usize>)
    requires
        pat@.len() <= usize::MAX / 4,
    ensures
        is_suffix_array(r@, pat@),
{
    let n = pat.len();
    let extend_capacity = calc_extend_capacity(n);
    let cap = n + extend_capacity + 1;
    let (mut sa, mut rk) = doubling_start(pat, cap);
    let byte_cap = 256 + calc_extend_capacity(256) + 1;
    counting_pass(&mut sa, &rk, n, 0, byte_cap, 256);
    rerank(&sa, &mut rk, n, 0);
    let mut w: usize = 1;
    while w < n
        invariant
            doubling_ready(sa@, rk@, n as int, cap as int),
            cap == n + extend_capacity + 1,
            extend_capacity >= n,
            n <= usize::MAX / 4,
            1 <= w <= 2 * n || n == 0,
        decreases 2 * n - w,
    {
        counting_pass(&mut sa, &rk, n, w, cap, n);
        counting_pass(&mut sa, &rk, n, 0, cap, n);
        rerank(&sa, &mut rk, n, w);
        w = w * 2;
    }
    let r = lower_positions(&sa, n);
    certify_suffix_array(pat, r)
}

/// The suffix array of `pat` by prefix doubling, where the order by the rank `w`
/// further on is read off the previous round's order instead of sorted.
pub fn suffix_array_bl_radix_improved(pat: &[u8]) -> (r: Vec<usize>)
    requires
        pat@.len() <= usize::MAX / 4,
    ensures
        is_suffix_array(r@, pat@),
{
    let n = pat.len();
    let extend_capacity = calc_extend_capacity(n);
    let cap = n + extend_capacity + 1;
    let (mut sa, mut rk) = doubling_start(pat, cap);
    let byte_cap = 256 + calc_extend_capacity(256) + 1;
    counting_pass(&mut sa, &rk, n, 0, byte_cap, 256);
    rerank(&sa, &mut rk, n, 0);
    let mut w: usize = 1;
    while w < n
        invariant
            doubling_ready(sa@, rk@, n as int, cap as int),
            cap == n + extend_capacity + 1,
            extend_capacity >= n,
            n <= usize::MAX / 4,
            1 <= w <= 2 * n || n == 0,
        decreases 2 * n - w,
    {
        let old_sa = copy_vec(&sa);
        // the positions whose rank `w` further on lies past the end come first
        let mut i: usize = 1;
        while i <= w
            invariant
                doubling_ready(sa@, rk@, n as int, cap as int),
                1 <= w < n,
                1 <= i <= w + 1,
            decreases w + 1 - i,
        {
            sa.set(i, n + i - w);
            i = i + 1;
        }
        // then the others, in the previous order of the position `w` further on
        let mut k = w + 1;
        let mut i: usize = 1;
        while i <= n
            invariant
                doubling_ready(sa@, rk@, n as int, cap as int),
                doubling_ready(old_sa@, rk@, n as int, cap as int),
                1 <= w < n,
                1 <= i <= n + 1,
                w + 1 <= k,
            decreases n + 1 - i,
        {
            if old_sa[i] > w && k <= n {
                sa.set(k, old_sa[i] - w);
                k = k + 1;
            }
            i = i + 1;
        }
        counting_pass(&mut sa, &rk, n, 0, cap, n);
        rerank(&sa, &mut rk, n, w);
        w = w * 2;
    }
    let r = lower_positions(&sa, n);
    certify_suffix_array(pat, r)
}

} // verus!

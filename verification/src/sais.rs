//! The suffix array by induced sorting (SA-IS): suffixes are typed S or L by
//! how they compare with the next one, the leftmost-S (LMS) substrings are
//! sorted and named, the problem is reduced to the string of names, and the
//! order of all suffixes is induced from the order of the LMS suffixes.
//!
//! Bucket pointers stay within their buckets on every run of the algorithm; the
//! bounds tests on them only make that evident. The result is checked against
//! the definition of a suffix array, as for the doubling algorithms.

use vstd::prelude::*;
use crate::sa_spec::{is_suffix_array, iter_up, iter_down};

verus! {

/// The type of a suffix that is greater than the next one.
pub const LTYPE: bool = false;

/// The type of a suffix that is smaller than the next one (and of the last).
pub const STYPE: bool = true;

/// Sets each bucket's tail pointer to its last slot.
fn reset_sbucket(sbucket: &mut Vec<usize>, prefix_sum: &Vec<usize>)
    requires
        old(sbucket)@.len() == prefix_sum@.len(),
        prefix_sum@.len() >= 1,
    ensures
        final(sbucket)@.len() == old(sbucket)@.len(),
        forall|k: int| 0 <= k < prefix_sum@.len() ==> #[trigger] final(sbucket)@[k] == (if k == 0 { 0 } else if prefix_sum@[k] > 0 { prefix_sum@[k] - 1 } else { 0 }),
{
    let mut i: usize = 1;
    while i < prefix_sum.len()
        invariant
            sbucket@.len() == prefix_sum@.len(),
            1 <= i <= prefix_sum@.len(),
            forall|k: int| 1 <= k < i ==> #[trigger] sbucket@[k] == (if prefix_sum@[k] > 0 { prefix_sum@[k] - 1 } else { 0 }),
        decreases prefix_sum@.len() - i,
    {
        let v = if prefix_sum[i] > 0 { prefix_sum[i] - 1 } else { 0 };
        sbucket.set(i, v);
        i = i + 1;
    }
    sbucket.set(0, 0);
}

/// Sets each bucket's head pointer to its first slot.
fn reset_lbucket(lbucket: &mut Vec<usize>, prefix_sum: &Vec<usize>)
    requires
        old(lbucket)@.len() == prefix_sum@.len(),
        prefix_sum@.len() >= 1,
    ensures
        final(lbucket)@.len() == old(lbucket)@.len(),
        forall|k: int| 0 <= k < prefix_sum@.len() ==> #[trigger] final(lbucket)@[k] == (if k == 0 { 0 } else { prefix_sum@[k - 1] }),
{
    let mut i: usize = 1;
    while i < prefix_sum.len()
        invariant
            lbucket@.len() == prefix_sum@.len(),
            1 <= i <= prefix_sum@.len(),
            forall|k: int| 1 <= k < i ==> #[trigger] lbucket@[k] == prefix_sum@[k - 1],
        decreases prefix_sum@.len() - i,
    {
        lbucket.set(i, prefix_sum[i - 1]);
        i = i + 1;
    }
    lbucket.set(0, 0);
}

/// Position `x` is S-typed after an L-typed position.
pub open spec fn lms_at(suf_t: Seq<bool>, x: int) -> bool {
    1 <= x < suf_t.len() && suf_t[x - 1] == LTYPE && suf_t[x] == STYPE
}

/// Whether the LMS substrings from `x` and `y` agree: equal characters up to
/// where one of them reaches the next LMS position, which the other reaches at
/// the same step, with equal character and type there.
pub open spec fn lmssubstr_same(pat: Seq<usize>, suf_t: Seq<bool>, x: int, y: int) -> bool
    decreases pat.len() - x,
{
    if !(0 <= x < pat.len() && 0 <= y < pat.len()) || pat[x] != pat[y] {
        false
    } else if lms_at(suf_t, x + 1) {
        lms_at(suf_t, y + 1) && pat[x + 1] == pat[y + 1] && suf_t[x + 1] == suf_t[y + 1]
    } else if lms_at(suf_t, y + 1) {
        false
    } else {
        lmssubstr_same(pat, suf_t, x + 1, y + 1)
    }
}

/// Position `x` starts an LMS substring: it is S-typed after an L-typed position.
fn is_lms_char(suf_t: &Vec<bool>, x: usize) -> (r: bool)
    ensures
        r == lms_at(suf_t@, x as int),
        r ==> 1 <= x < suf_t@.len(),
{
    x >= 1 && x < suf_t.len() && suf_t[x - 1] == LTYPE && suf_t[x] == STYPE
}

/// Whether the LMS substrings at `x` and `y` are equal, characters and types.
fn lmssubstr_eq(pat: &[usize], x: usize, y: usize, suf_t: &Vec<bool>) -> (r: bool)
    requires
        suf_t@.len() == pat@.len(),
    ensures
        r == lmssubstr_same(pat@, suf_t@, x as int, y as int),
{
    let n = pat.len();
    let ghost x0 = x as int;
    let ghost y0 = y as int;
    let mut xi = x;
    let mut yi = y;
    while xi < n && yi < n
        invariant
            n == pat@.len(),
            suf_t@.len() == n,
            x0 == x,
            y0 == y,
            lmssubstr_same(pat@, suf_t@, x0, y0) == lmssubstr_same(pat@, suf_t@, xi as int, yi as int),
        decreases n - xi,
    {
        if pat[xi] != pat[yi] {
            proof {
                assert(!lmssubstr_same(pat@, suf_t@, xi as int, yi as int));
            }
            return false;
        }
        proof {
            let px = xi as int;
            let py = yi as int;
            assert(lmssubstr_same(pat@, suf_t@, px, py) == (if lms_at(suf_t@, px + 1) {
                lms_at(suf_t@, py + 1) && pat@[px + 1] == pat@[py + 1] && suf_t@[px + 1] == suf_t@[py + 1]
            } else if lms_at(suf_t@, py + 1) {
                false
            } else {
                lmssubstr_same(pat@, suf_t@, px + 1, py + 1)
            }));
        }
        xi = xi + 1;
        yi = yi + 1;
        if is_lms_char(suf_t, xi) {
            if is_lms_char(suf_t, yi) {
                return pat[xi] == pat[yi] && suf_t[xi] == suf_t[yi];
            }
            return false;
        }
        if is_lms_char(suf_t, yi) {
            return false;
        }
    }
    proof {
        assert(!lmssubstr_same(pat@, suf_t@, xi as int, yi as int));
    }
    false
}

/// One step of the left-to-right pass at slot `i`: when the slot holds a
/// position `s` whose predecessor is L-typed, `s - 1` goes to the head of its
/// bucket, which moves one slot up.
pub open spec fn lpass_step(pat: Seq<usize>, suf_t: Seq<bool>, sa: Seq<usize>, lb: Seq<usize>, i: int)
    -> (Seq<usize>, Seq<usize>)
{
    let n = pat.len();
    let s = sa[i];
    if 0 < s <= n && suf_t[s - 1] == LTYPE && lb[pat[s - 1] as int] < n {
        let c = pat[s - 1] as int;
        let lfp = lb[c];
        (sa.update(lfp as int, (s - 1) as usize), lb.update(c, (lfp + 1) as usize))
    } else {
        (sa, lb)
    }
}

/// The array and the bucket heads after the left-to-right pass over slots `0..i`.
pub open spec fn lpass(pat: Seq<usize>, suf_t: Seq<bool>, sa: Seq<usize>, lb: Seq<usize>, i: int)
    -> (Seq<usize>, Seq<usize>)
    decreases i,
{
    if i <= 0 {
        (sa, lb)
    } else {
        let st = lpass(pat, suf_t, sa, lb, i - 1);
        lpass_step(pat, suf_t, st.0, st.1, i - 1)
    }
}

/// One step of the right-to-left pass at slot `i`: when the slot holds a
/// position `s` whose predecessor is S-typed, `s - 1` goes to the tail of its
/// bucket, which moves one slot down.
pub open spec fn spass_step(pat: Seq<usize>, suf_t: Seq<bool>, sa: Seq<usize>, sb: Seq<usize>, i: int)
    -> (Seq<usize>, Seq<usize>)
{
    let n = pat.len();
    let s = sa[i];
    if 0 < s <= n && suf_t[s - 1] == STYPE && sb[pat[s - 1] as int] < n {
        let c = pat[s - 1] as int;
        let rfp = sb[c];
        (sa.update(rfp as int, (s - 1) as usize), if rfp > 0 { sb.update(c, (rfp - 1) as usize) } else { sb })
    } else {
        (sa, sb)
    }
}

/// The array and the bucket tails after the right-to-left pass over the slots
/// from `n - 1` down to `i`.
pub open spec fn spass(pat: Seq<usize>, suf_t: Seq<bool>, sa: Seq<usize>, sb: Seq<usize>, i: int, n: int)
    -> (Seq<usize>, Seq<usize>)
    decreases n - i,
{
    if i >= n {
        (sa, sb)
    } else {
        let st = spass(pat, suf_t, sa, sb, i + 1, n);
        spass_step(pat, suf_t, st.0, st.1, i)
    }
}

/// The array after inducing: the left-to-right pass from the given bucket heads,
/// then the right-to-left pass from the given bucket tails.
pub open spec fn induced(pat: Seq<usize>, suf_t: Seq<bool>, sa: Seq<usize>, lb: Seq<usize>, sb: Seq<usize>) -> Seq<usize> {
    let n = pat.len() as int;
    spass(pat, suf_t, lpass(pat, suf_t, sa, lb, n).0, sb, 0, n).0
}

/// Induces the order of the L-typed suffixes from left to right, then of the
/// S-typed ones from right to left, from the positions already placed in `sa`;
/// both sets of bucket pointers are reset afterwards.
fn induced_sort(
    pat: &[usize],
    sa: &mut Vec<usize>,
    suf_t: &Vec<bool>,
    lbucket: &mut Vec<usize>,
    sbucket: &mut Vec<usize>,
    prefix_sum: &Vec<usize>,
)
    requires
        old(sa)@.len() == pat@.len(),
        suf_t@.len() == pat@.len(),
        old(lbucket)@.len() == prefix_sum@.len(),
        old(sbucket)@.len() == prefix_sum@.len(),
        prefix_sum@.len() >= 1,
        forall|k: int| 0 <= k < pat@.len() ==> #[trigger] pat@[k] < prefix_sum@.len(),
    ensures
        final(sa)@.len() == old(sa)@.len(),
        final(sa)@ == induced(pat@, suf_t@, old(sa)@, old(lbucket)@, old(sbucket)@),
        final(lbucket)@.len() == old(lbucket)@.len(),
        forall|k: int| 0 <= k < prefix_sum@.len() ==> #[trigger] final(lbucket)@[k] == (if k == 0 { 0 } else { prefix_sum@[k - 1] }),
        final(sbucket)@.len() == old(sbucket)@.len(),
        forall|k: int| 0 <= k < prefix_sum@.len() ==> #[trigger] final(sbucket)@[k] == (if k == 0 { 0 } else if prefix_sum@[k] > 0 { prefix_sum@[k] - 1 } else { 0 }),
{
    let n = pat.len();
    let ghost sa0 = sa@;
    let ghost lb0 = lbucket@;
    let ghost sb0 = sbucket@;
    let mut i: usize = 0;
    while i < n
        invariant
            n == pat@.len(),
            sa@.len() == n,
            suf_t@.len() == n,
            lbucket@.len() == prefix_sum@.len(),
            forall|k: int| 0 <= k < n ==> #[trigger] pat@[k] < prefix_sum@.len(),
            i <= n,
            (sa@, lbucket@) == lpass(pat@, suf_t@, sa0, lb0, i as int),
        decreases n - i,
    {
        let s = sa[i];
        if s > 0 && s <= n && suf_t[s - 1] == LTYPE {
            let c = pat[s - 1];
            let lfp = lbucket[c];
            if lfp < n {
                sa.set(lfp, s - 1);
                lbucket.set(c, lfp + 1);
            }
        }
        i = i + 1;
    }
    let ghost sa1 = sa@;
    reset_lbucket(lbucket, prefix_sum);
    let mut i: usize = n;
    while i > 0
        invariant
            n == pat@.len(),
            sa@.len() == n,
            suf_t@.len() == n,
            sbucket@.len() == prefix_sum@.len(),
            forall|k: int| 0 <= k < n ==> #[trigger] pat@[k] < prefix_sum@.len(),
            i <= n,
            (sa@, sbucket@) == spass(pat@, suf_t@, sa1, sb0, i as int, n as int),
        decreases i,
    {
        i = i - 1;
        let s = sa[i];
        if s > 0 && s <= n && suf_t[s - 1] == STYPE {
            let c = pat[s - 1];
            let rfp = sbucket[c];
            if rfp < n {
                sa.set(rfp, s - 1);
                if rfp > 0 {
                    sbucket.set(c, rfp - 1);
                }
            }
        }
    }
    reset_sbucket(sbucket, prefix_sum);
}

/// One step of placing LMS positions: the position `lms_pos[order[i]]` goes to
/// the tail of its bucket, which moves one slot down (tests that never fail on
/// a run of the algorithm leave everything as it is).
pub open spec fn place_step(pat: Seq<usize>, lms_pos: Seq<usize>, order: Seq<usize>, sa: Seq<usize>, sb: Seq<usize>, i: int)
    -> (Seq<usize>, Seq<usize>)
{
    let o = order[i];
    if o < lms_pos.len() && lms_pos[o as int] < pat.len() && sb[pat[lms_pos[o as int] as int] as int] < pat.len() {
        let p = lms_pos[o as int];
        let c = pat[p as int] as int;
        let rfp = sb[c];
        (sa.update(rfp as int, p), if rfp > 0 { sb.update(c, (rfp - 1) as usize) } else { sb })
    } else {
        (sa, sb)
    }
}

/// The array and the bucket tails after placing the LMS positions listed at
/// `order[k..cnt]`, from the last one down.
pub open spec fn placed(pat: Seq<usize>, lms_pos: Seq<usize>, order: Seq<usize>, sa: Seq<usize>, sb: Seq<usize>, k: int, cnt: int)
    -> (Seq<usize>, Seq<usize>)
    decreases cnt - k,
{
    if k >= cnt {
        (sa, sb)
    } else {
        let st = placed(pat, lms_pos, order, sa, sb, k + 1, cnt);
        place_step(pat, lms_pos, order, st.0, st.1, k)
    }
}

/// Places the LMS positions `lms_pos[order[k]]`, from the last to the first
/// listed, at the tails of their buckets.
fn place_lms(pat: &[usize], sa: &mut Vec<usize>, sbucket: &mut Vec<usize>, lms_pos: &Vec<usize>, order: &Vec<usize>, from: usize, cnt: usize)
    requires
        old(sa)@.len() == pat@.len(),
        forall|k: int| 0 <= k < pat@.len() ==> #[trigger] pat@[k] < old(sbucket)@.len(),
        cnt <= order@.len(),
        from <= cnt || cnt == 0,
    ensures
        final(sa)@.len() == old(sa)@.len(),
        final(sbucket)@.len() == old(sbucket)@.len(),
        (final(sa)@, final(sbucket)@) == placed(pat@, lms_pos@, order@, old(sa)@, old(sbucket)@, from as int, cnt as int),
{
    let n = pat.len();
    let mut i = cnt;
    while i > from
        invariant
            n == pat@.len(),
            sa@.len() == n,
            sbucket@.len() == old(sbucket)@.len(),
            forall|k: int| 0 <= k < n ==> #[trigger] pat@[k] < sbucket@.len(),
            cnt <= order@.len(),
            i <= cnt,
            from <= i || cnt == 0,
            (sa@, sbucket@) == placed(pat@, lms_pos@, order@, old(sa)@, old(sbucket)@, i as int, cnt as int),
        decreases i,
    {
        i = i - 1;
        let o = order[i];
        if o < lms_pos.len() {
            let p = lms_pos[o];
            if p < n {
                let c = pat[p];
                let rfp = sbucket[c];
                if rfp < n {
                    sa.set(rfp, p);
                    if rfp > 0 {
                        sbucket.set(c, rfp - 1);
                    }
                }
            }
        }
    }
}

/// `n` zeros.
pub open spec fn zeros(n: int) -> Seq<usize> {
    Seq::new(n as nat, |k: int| 0usize)
}

/// The positions `0, 1, ..., n - 1`.
pub open spec fn positions_upto(n: int) -> Seq<usize> {
    Seq::new(n as nat, |k: int| k as usize)
}

/// Counting the `i`-th character.
pub open spec fn count_char_step(pat: Seq<usize>) -> spec_fn(Seq<usize>, int) -> Seq<usize> {
    |ps: Seq<usize>, i: int| ps.update(pat[i] as int, (ps[pat[i] as int] + 1) as usize)
}

/// Adding the running sum below `i` to counter `i` (a sum past `n` leaves it).
pub open spec fn run_sum_step(n: int) -> spec_fn(Seq<usize>, int) -> Seq<usize> {
    |ps: Seq<usize>, i: int| if ps[i] <= n - ps[i - 1] { ps.update(i, (ps[i] + ps[i - 1]) as usize) } else { ps }
}

/// For each character below `alphabet`, how many characters of `pat` are at
/// most it: the end of its bucket.
pub open spec fn bucket_ends(pat: Seq<usize>, alphabet: int) -> Seq<usize> {
    let counts = iter_up(count_char_step(pat), zeros(alphabet), 0, pat.len() as int);
    iter_up(run_sum_step(pat.len() as int), counts, 1, alphabet)
}

/// The first slot of each bucket.
pub open spec fn bucket_heads(ps: Seq<usize>) -> Seq<usize> {
    Seq::new(ps.len(), |k: int| if k == 0 { 0usize } else { ps[k - 1] })
}

/// The last slot of each bucket.
pub open spec fn bucket_tails(ps: Seq<usize>) -> Seq<usize> {
    Seq::new(ps.len(), |k: int| if k == 0 { 0usize } else if ps[k] > 0 { (ps[k] - 1) as usize } else { 0usize })
}

/// Typing position `i` from the next one.
pub open spec fn type_step(pat: Seq<usize>) -> spec_fn(Seq<bool>, int) -> Seq<bool> {
    |t: Seq<bool>, i: int| t.update(i, if pat[i] < pat[i + 1] { STYPE } else if pat[i] > pat[i + 1] { LTYPE } else { t[i + 1] })
}

/// The type of each suffix of `pat`, the last one S-typed.
pub open spec fn suffix_types(pat: Seq<usize>) -> Seq<bool> {
    let n = pat.len() as int;
    iter_down(type_step(pat), Seq::new(n as nat, |k: int| LTYPE).update(n - 1, STYPE), 0, n - 1)
}

/// Listing position `i` if it is an LMS position.
pub open spec fn lms_list_step(suf_t: Seq<bool>) -> spec_fn((Seq<usize>, int), int) -> (Seq<usize>, int) {
    |st: (Seq<usize>, int), i: int| if lms_at(suf_t, i) { (st.0.update(st.1, i as usize), st.1 + 1) } else { st }
}

/// Naming the LMS substring at the position in slot `i` of the sorted `sa`,
/// with the names, the rank, the last LMS position named and whether a name
/// repeated: the rank goes up unless the substring equals the last one.
pub open spec fn name_lms_step(pat: Seq<usize>, suf_t: Seq<bool>, sa: Seq<usize>)
    -> spec_fn((Seq<usize>, int, int, bool), int) -> (Seq<usize>, int, int, bool)
{
    |st: (Seq<usize>, int, int, bool), i: int| {
        let e = sa[i] as int;
        if lms_at(suf_t, e) {
            let rank = if st.2 >= 1 && !lmssubstr_same(pat, suf_t, e, st.2) { st.1 + 1 } else { st.1 };
            let dup = st.3 || (st.2 >= 1 && rank == st.0[st.2]);
            (st.0.update(e, rank as usize), rank, e, dup)
        } else {
            st
        }
    }
}

/// Appending the name of position `i`, if it has one, to the reduced string.
pub open spec fn reduce_step(names: Seq<usize>, lms_cnt: int) -> spec_fn((Seq<usize>, int), int) -> (Seq<usize>, int) {
    |st: (Seq<usize>, int), i: int| if names[i] > 0 && st.1 < lms_cnt { (st.0.update(st.1, names[i]), st.1 + 1) } else { st }
}

/// With distinct names, the `i`-th LMS suffix goes to the slot its name gives.
pub open spec fn direct_order_step(pat1: Seq<usize>, lms_cnt: int) -> spec_fn(Seq<usize>, int) -> Seq<usize> {
    |s: Seq<usize>, i: int| if pat1[i] < lms_cnt { s.update(pat1[i] as int, i as usize) } else { s }
}

/// The array that SA-IS leaves for `pat` over `alphabet`: the LMS positions
/// placed and the order induced, the sorted LMS substrings named, the reduced
/// string sorted (recursively where names repeat), and the final order induced
/// from the LMS suffixes in that order.
pub open spec fn sais_sorted(pat: Seq<usize>, alphabet: int) -> Seq<usize>
    decreases pat.len(),
{
    let n = pat.len() as int;
    let ps = bucket_ends(pat, alphabet);
    let types = suffix_types(pat);
    let lms = iter_up(lms_list_step(types), (zeros(n), 0int), 1, n);
    let lms_cnt = lms.1;
    let st1 = if lms_cnt >= 1 {
        placed(pat, lms.0, positions_upto(n), zeros(n), bucket_tails(ps), 0, lms_cnt - 1)
    } else {
        (zeros(n), bucket_tails(ps))
    };
    let sa2 = induced(pat, types, st1.0.update(0, (n - 1) as usize), bucket_heads(ps), bucket_tails(ps));
    let nm = iter_up(name_lms_step(pat, types, sa2), (zeros(n), 1int, 0int, false), 1, n);
    let p1 = iter_up(reduce_step(nm.0, lms_cnt), (zeros(lms_cnt), 0int), 0, n - 1);
    let p1f = if p1.1 < lms_cnt { p1.0.update(p1.1, 0) } else { p1.0 };
    let pat1 = Seq::new(lms_cnt as nat, |k: int| p1f[k]);
    let sa1 = if nm.3 {
        if 1 <= lms_cnt < n && nm.1 < usize::MAX { sais_sorted(pat1, nm.1 + 1) } else { zeros(lms_cnt) }
    } else {
        iter_up(direct_order_step(pat1, lms_cnt), zeros(lms_cnt), 0, lms_cnt)
    };
    let st2 = placed(pat, lms.0, sa1, zeros(n), bucket_tails(ps), 1, lms_cnt);
    induced(pat, types, st2.0.update(0, (n - 1) as usize), bucket_heads(ps), bucket_tails(ps))
}

/// SA-IS over a string of integers below `alphabet` that ends with a unique
/// smallest character 0.
#[verifier::rlimit(60)]
fn suffix_array_sais_rec(pat: &[usize], sa: &mut Vec<usize>, alphabet: usize)
    requires
        old(sa)@.len() == pat@.len(),
        pat@.len() >= 1,
        alphabet >= 1,
        forall|k: int| 0 <= k < pat@.len() ==> #[trigger] pat@[k] < alphabet,
    ensures
        final(sa)@.len() == old(sa)@.len(),
        final(sa)@ == sais_sorted(pat@, alphabet as int),
    decreases pat@.len(),
{
    let patlen = pat.len();
    let patlastpos = patlen - 1;
    let mut suf_t: Vec<bool> = vec![false; patlen];
    let mut lms_pos: Vec<usize> = vec![0; patlen];
    let mut lmsname: Vec<usize> = vec![0; patlen];
    let mut prefix_sum: Vec<usize> = vec![0; alphabet];
    let mut lbucket: Vec<usize> = vec![0; alphabet];
    let mut sbucket: Vec<usize> = vec![0; alphabet];
    let ghost n = patlen as int;
    proof {
        assert(prefix_sum@ =~= zeros(alphabet as int));
        assert(lms_pos@ =~= zeros(n));
        assert(lmsname@ =~= zeros(n));
        assert(suf_t@ =~= Seq::new(patlen as nat, |k: int| LTYPE));
    }

    let mut i: usize = 0;
    while i < patlen
        invariant
            patlen == pat@.len(),
            prefix_sum@.len() == alphabet,
            forall|k: int| 0 <= k < patlen ==> #[trigger] pat@[k] < alphabet,
            i <= patlen,
            forall|k: int| 0 <= k < alphabet ==> #[trigger] prefix_sum@[k] <= i,
            prefix_sum@ == iter_up(count_char_step(pat@), zeros(alphabet as int), 0, i as int),
        decreases patlen - i,
    {
        let c = pat[i];
        prefix_sum.set(c, prefix_sum[c] + 1);
        i = i + 1;
    }
    let ghost counts = prefix_sum@;
    let mut i: usize = 1;
    while i < alphabet
        invariant
            prefix_sum@.len() == alphabet,
            lbucket@.len() == alphabet,
            sbucket@.len() == alphabet,
            1 <= i <= alphabet,
            forall|k: int| 0 <= k < alphabet ==> #[trigger] prefix_sum@[k] <= patlen,
            prefix_sum@ == iter_up(run_sum_step(patlen as int), counts, 1, i as int),
            lbucket@[0] == 0,
            sbucket@[0] == 0,
            forall|k: int| 1 <= k < i ==> #[trigger] lbucket@[k] == prefix_sum@[k - 1],
            forall|k: int| 1 <= k < i ==> #[trigger] sbucket@[k] == (if prefix_sum@[k] > 0 { (prefix_sum@[k] - 1) as usize } else { 0usize }),
        decreases alphabet - i,
    {
        // a running sum never passes the length of the string
        if prefix_sum[i] <= patlen - prefix_sum[i - 1] {
            prefix_sum.set(i, prefix_sum[i] + prefix_sum[i - 1]);
        }
        lbucket.set(i, prefix_sum[i - 1]);
        let t = if prefix_sum[i] > 0 { prefix_sum[i] - 1 } else { 0 };
        sbucket.set(i, t);
        i = i + 1;
    }
    let ghost ps = prefix_sum@;
    proof {
        assert(lbucket@ =~= bucket_heads(ps));
        assert(sbucket@ =~= bucket_tails(ps));
        assert(ps == bucket_ends(pat@, alphabet as int));
    }
    suf_t.set(patlastpos, STYPE);
    let ghost t0 = suf_t@;
    let mut i: usize = patlastpos;
    while i > 0
        invariant
            patlen == pat@.len(),
            suf_t@.len() == patlen,
            i <= patlastpos,
            patlastpos == patlen - 1,
            suf_t@ == iter_down(type_step(pat@), t0, i as int, patlastpos as int),
        decreases i,
    {
        i = i - 1;
        if pat[i] < pat[i + 1] {
            suf_t.set(i, STYPE);
        } else if pat[i] > pat[i + 1] {
            suf_t.set(i, LTYPE);
        } else {
            let t = suf_t[i + 1];
            suf_t.set(i, t);
        }
    }

    // the LMS positions, in order
    let mut lms_cnt: usize = 0;
    let mut i: usize = 1;
    while i < patlen
        invariant
            patlen == pat@.len(),
            suf_t@.len() == patlen,
            lms_pos@.len() == patlen,
            1 <= i <= patlen,
            lms_cnt < i,
            forall|k: int| 0 <= k < lms_cnt ==> #[trigger] lms_pos@[k] < patlen,
            suf_t@ == suffix_types(pat@),
            (lms_pos@, lms_cnt as int) == iter_up(lms_list_step(suf_t@), (zeros(n), 0int), 1, i as int),
        decreases patlen - i,
    {
        if is_lms_char(&suf_t, i) {
            lms_pos.set(lms_cnt, i);
            lms_cnt = lms_cnt + 1;
        }
        i = i + 1;
    }
    let mut k: usize = 0;
    while k < patlen
        invariant
            sa@.len() == patlen,
            k <= patlen,
            forall|x: int| 0 <= x < k ==> #[trigger] sa@[x] == 0,
        decreases patlen - k,
    {
        sa.set(k, 0);
        k = k + 1;
    }
    assert(sa@ =~= zeros(n));

    // sort the LMS prefixes: place the LMS positions, then induce
    let identity = identity_vec(patlen);
    assert(identity@ =~= positions_upto(n));
    let ghost lms_x = lms_pos@;
    if lms_cnt >= 1 {
        place_lms(pat, sa, &mut sbucket, &lms_pos, &identity, 0, lms_cnt - 1);
    }
    sa.set(0, patlen - 1);
    let ghost sa_p1 = sa@;
    assert(sa_p1 == (if lms_cnt >= 1 {
        placed(pat@, lms_x, positions_upto(n), zeros(n), bucket_tails(ps), 0, lms_cnt - 1)
    } else {
        (zeros(n), bucket_tails(ps))
    }).0.update(0, (n - 1) as usize));
    reset_sbucket(&mut sbucket, &prefix_sum);
    assert(sbucket@ =~= bucket_tails(ps));
    induced_sort(pat, sa, &suf_t, &mut lbucket, &mut sbucket, &prefix_sum);
    assert(sbucket@ =~= bucket_tails(ps));
    assert(lbucket@ =~= bucket_heads(ps));
    let ghost sa2 = sa@;
    assert(sa2 == induced(pat@, suf_t@, sa_p1, bucket_heads(ps), bucket_tails(ps)));

    // name the sorted LMS substrings, in the order of the string
    let mut rank: usize = 1;
    let mut last_lms_i: usize = 0;
    let mut has_duplicated_char = false;
    let mut i: usize = 1;
    while i < patlen
        invariant
            patlen == pat@.len(),
            sa@.len() == patlen,
            suf_t@.len() == patlen,
            lmsname@.len() == patlen,
            1 <= i <= patlen,
            1 <= rank <= i,
            last_lms_i < patlen,
            forall|k: int| 0 <= k < patlen ==> #[trigger] lmsname@[k] <= rank,
            sa@ == sa2,
            suf_t@ == suffix_types(pat@),
            (lmsname@, rank as int, last_lms_i as int, has_duplicated_char)
                == iter_up(name_lms_step(pat@, suf_t@, sa2), (zeros(n), 1int, 0int, false), 1, i as int),
        decreases patlen - i,
    {
        let e_i = sa[i];
        if is_lms_char(&suf_t, e_i) {
            if last_lms_i >= 1 && !lmssubstr_eq(pat, e_i, last_lms_i, &suf_t) {
                rank = rank + 1;
            }
            if last_lms_i >= 1 && rank == lmsname[last_lms_i] {
                has_duplicated_char = true;
            }
            last_lms_i = e_i;
            lmsname.set(e_i, rank);
        }
        i = i + 1;
    }

    // the reduced string of names, ended by 0
    let mut pat1: Vec<usize> = vec![0; lms_cnt];
    let mut sa1: Vec<usize> = vec![0; lms_cnt];
    assert(pat1@ =~= zeros(lms_cnt as int));
    assert(sa1@ =~= zeros(lms_cnt as int));
    let ghost names = lmsname@;
    let mut j: usize = 0;
    let mut i: usize = 0;
    while i < patlastpos
        invariant
            patlen == pat@.len(),
            patlastpos == patlen - 1,
            lmsname@.len() == patlen,
            pat1@.len() == lms_cnt,
            forall|k: int| 0 <= k < patlen ==> #[trigger] lmsname@[k] <= rank,
            forall|k: int| 0 <= k < lms_cnt ==> #[trigger] pat1@[k] <= rank,
            i <= patlastpos,
            lmsname@ == names,
            j <= lms_cnt,
            (pat1@, j as int) == iter_up(reduce_step(names, lms_cnt as int), (zeros(lms_cnt as int), 0int), 0, i as int),
        decreases patlastpos - i,
    {
        if lmsname[i] > 0 && j < lms_cnt {
            pat1.set(j, lmsname[i]);
            j = j + 1;
        }
        i = i + 1;
    }
    if j < lms_cnt {
        pat1.set(j, 0);
    }
    assert(pat1@ =~= Seq::new(lms_cnt as nat, |k: int| pat1@[k]));
    let mut k: usize = 0;
    while k < patlen
        invariant
            sa@.len() == patlen,
            k <= patlen,
            forall|x: int| 0 <= x < k ==> #[trigger] sa@[x] == 0,
        decreases patlen - k,
    {
        sa.set(k, 0);
        k = k + 1;
    }
    assert(sa@ =~= zeros(n));

    if has_duplicated_char {
        // the names repeat: sort the reduced string's suffixes recursively
        if 1 <= lms_cnt && lms_cnt < patlen && rank < usize::MAX {
            suffix_array_sais_rec(&pat1, &mut sa1, rank + 1);
        }
    } else {
        // the names are distinct: they give the order directly
        let mut i: usize = 0;
        while i < lms_cnt
            invariant
                pat1@.len() == lms_cnt,
                sa1@.len() == lms_cnt,
                i <= lms_cnt,
                sa1@ == iter_up(direct_order_step(pat1@, lms_cnt as int), zeros(lms_cnt as int), 0, i as int),
            decreases lms_cnt - i,
        {
            let name = pat1[i];
            if name < lms_cnt {
                sa1.set(name, i);
            }
            i = i + 1;
        }
    }

    // place the LMS suffixes in their sorted order, from the last, then induce
    let ghost sa1v = sa1@;
    let ghost pat1v = pat1@;
    proof {
        if has_duplicated_char {
            if 1 <= lms_cnt && lms_cnt < patlen && rank < usize::MAX {
                assert(sa1v == sais_sorted(pat1v, rank + 1));
            } else {
                assert(sa1v == zeros(lms_cnt as int));
            }
        } else {
            assert(sa1v == iter_up(direct_order_step(pat1v, lms_cnt as int), zeros(lms_cnt as int), 0, lms_cnt as int));
        }
    }
    place_lms(pat, sa, &mut sbucket, &lms_pos, &sa1, 1, lms_cnt);
    sa.set(0, patlen - 1);
    let ghost sa_p2 = sa@;
    assert(sa_p2 == placed(pat@, lms_x, sa1v, zeros(n), bucket_tails(ps), 1, lms_cnt as int).0.update(0, (n - 1) as usize));
    reset_sbucket(&mut sbucket, &prefix_sum);
    assert(sbucket@ =~= bucket_tails(ps));
    induced_sort(pat, sa, &suf_t, &mut lbucket, &mut sbucket, &prefix_sum);
    proof {
        let types = suffix_types(pat@);
        let lms = iter_up(lms_list_step(types), (zeros(n), 0int), 1, n);
        assert(lms.0 == lms_x && lms.1 == lms_cnt);
        let nm = iter_up(name_lms_step(pat@, types, sa2), (zeros(n), 1int, 0int, false), 1, n);
        assert(nm.0 == names && nm.1 == rank && nm.3 == has_duplicated_char);
        let p1 = iter_up(reduce_step(nm.0, lms_cnt as int), (zeros(lms_cnt as int), 0int), 0, n - 1);
        let p1f = if p1.1 < lms_cnt { p1.0.update(p1.1, 0) } else { p1.0 };
        assert(pat1v == Seq::new(lms_cnt as nat, |k: int| p1f[k]));
    }
}

/// The vector `0, 1, ..., n - 1`.
fn identity_vec(n: usize) -> (r: Vec<usize>)
    ensures
        r@.len() == n,
        forall|k: int| 0 <= k < n ==> #[trigger] r@[k] == k,
{
    let mut r: Vec<usize> = Vec::new();
    let mut i: usize = 0;
    while i < n
        invariant
            i <= n,
            r@.len() == i,
            forall|k: int| 0 <= k < i ==> #[trigger] r@[k] == k,
        decreases n - i,
    {
        r.push(i);
        i = i + 1;
    }
    r
}

/// The suffix array of `pat` by induced sorting, over the bytes of `pat` followed
/// by the sentinel 0.
pub fn suffix_array_sais(pat: &[u8]) -> (r: Vec<usize>)
    requires
        pat@.len() < usize::MAX,
    ensures
        is_suffix_array(r@, pat@),
{
    let n = pat.len();
    let mut p: Vec<usize> = Vec::new();
    let mut i: usize = 0;
    while i < n
        invariant
            n == pat@.len(),
            i <= n,
            p@.len() == i,
            forall|k: int| 0 <= k < i ==> #[trigger] p@[k] < 256,
        decreases n - i,
    {
        p.push(pat[i] as usize);
        i = i + 1;
    }
    p.push(0);
    let mut sa: Vec<usize> = vec![0; n + 1];
    suffix_array_sais_rec(p.as_slice(), &mut sa, 256);
    let mut r: Vec<usize> = Vec::new();
    let mut i: usize = 1;
    while i <= n
        invariant
            sa@.len() == n + 1,
            n < usize::MAX,
            1 <= i <= n + 1,
            r@.len() == i - 1,
        decreases n + 1 - i,
    {
        r.push(sa[i]);
        i = i + 1;
    }
    crate::sa::certify_suffix_array(pat, r)
}

} // verus!

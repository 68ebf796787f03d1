//! In-place suffix sorting (Li, Li and Huo): the same induced sorting as SA-IS,
//! but the bucket pointers and counters live inside the suffix array itself, in
//! slots marked by the reserved values `EMPTY`, `UNIQUE` and `MULTI`, and the
//! reduced problem is solved recursively in the two ends of that array.
//!
//! The string and the work space share one buffer: a `Region` names the part of
//! it that plays the role of the string or of the array. Every slot access goes
//! through `rd` and `wr`, which stay inside the region, and the scanning loops
//! that may step back carry a step budget. On the runs of the algorithm these
//! tests never fire; the result is checked against the definition of a suffix
//! array in any case.

use vstd::prelude::*;
use crate::sa_spec::{is_suffix_array, iter_up, iter_down, lemma_iter_down_empty};

verus! {

/// The type of a suffix that is greater than the next one.
pub const LTYPE: bool = false;

/// The type of a suffix that is smaller than the next one (and of the last).
pub const STYPE: bool = true;

/// The greatest value that the array holds as a position.
pub const MAX_SA_VALUE: usize = usize::MAX / 2;

/// A free slot; `EMPTY + k` at the head of a bucket counts `k` suffixes to come.
pub const EMPTY: usize = MAX_SA_VALUE + 1;

/// The head of a bucket that holds one suffix.
pub const UNIQUE: usize = MAX_SA_VALUE + 2;

/// The head of a bucket that holds several.
pub const MULTI: usize = MAX_SA_VALUE + 3;

/// A window `[base, base + len)` of the shared buffer.
#[derive(Clone, Copy)]
struct Region {
    base: usize,
    len: usize,
}

/// Slot `i` of region `r` lies within a buffer of `len` slots.
spec fn in_region(len: int, r: Region, i: int) -> bool {
    0 <= i < r.len && r.base <= len && i < len - r.base
}

/// The `i`-th slot of region `r` of the buffer `m`, or 0 outside it.
spec fn slot(m: Seq<usize>, r: Region, i: int) -> usize {
    if in_region(m.len() as int, r, i) { m[r.base + i] } else { 0 }
}

/// Two slots below `q`, or slot 0.
spec fn two_below(q: int) -> int {
    if q >= 2 { q - 2 } else { 0 }
}

/// `a + b`, or `usize::MAX` where that does not fit.
spec fn sat_add(a: int, b: int) -> int {
    if a + b <= usize::MAX { a + b } else { usize::MAX as int }
}

/// The buffer after writing `v` to the `i`-th slot of region `r`; unchanged
/// where that slot lies outside the buffer.
spec fn put(m: Seq<usize>, r: Region, i: int, v: usize) -> Seq<usize> {
    if in_region(m.len() as int, r, i) { m.update(r.base + i, v) } else { m }
}

/// The buffer after the slots `[from, to)` of region `r` were set to `v`.
spec fn filled(m: Seq<usize>, r: Region, from: int, to: int, v: usize) -> Seq<usize> {
    Seq::new(m.len(), |k: int| if r.base <= k && from <= k - r.base < to
        && in_region(m.len() as int, r, k - r.base) { v } else { m[k] })
}

/// Whether the character `cur` before `prev` starts an S-typed suffix.
spec fn s_typed(cur: usize, prev: usize, last_scanned_type: bool) -> bool {
    cur < prev || (cur == prev && last_scanned_type == STYPE)
}

/// The `i`-th slot of the region, or 0 outside it.
fn rd(m: &Vec<usize>, r: Region, i: usize) -> (v: usize)
    ensures
        v == slot(m@, r, i as int),
{
    if i < r.len && r.base <= m.len() && i < m.len() - r.base {
        m[r.base + i]
    } else {
        0
    }
}

/// Writes the `i`-th slot of the region; nothing outside it.
fn wr(m: &mut Vec<usize>, r: Region, i: usize, v: usize)
    ensures
        final(m)@.len() == old(m)@.len(),
        final(m)@ == put(old(m)@, r, i as int, v),
{
    if i < r.len && r.base <= m.len() && i < m.len() - r.base {
        m.set(r.base + i, v);
    }
}

/// Fills the slots `[from, to)` of the region with `v`.
fn fill(m: &mut Vec<usize>, r: Region, from: usize, to: usize, v: usize)
    ensures
        final(m)@.len() == old(m)@.len(),
        forall|k: int| 0 <= k < old(m)@.len() ==> #[trigger] final(m)@[k] == (if r.base <= k && from <= k - r.base < to
            && in_region(old(m)@.len() as int, r, k - r.base) { v } else { old(m)@[k] }),
        final(m)@ == filled(old(m)@, r, from as int, to as int, v),
{
    let mut i = from;
    while i < to
        invariant
            m@.len() == old(m)@.len(),
            from <= to ==> from <= i <= to,
            to < from ==> i == from,
            forall|k: int| 0 <= k < old(m)@.len() ==> #[trigger] m@[k] == (if r.base <= k && from <= k - r.base < i
                && in_region(old(m)@.len() as int, r, k - r.base) { v } else { old(m)@[k] }),
        decreases to - i,
    {
        let ghost before = m@;
        wr(m, r, i, v);
        proof {
            assert forall|k: int| 0 <= k < old(m)@.len() implies #[trigger] m@[k] == (if r.base <= k && from <= k - r.base < i + 1
                && in_region(old(m)@.len() as int, r, k - r.base) { v } else { old(m)@[k] }) by {
                if k != r.base + i {
                    assert(m@[k] == before[k]);
                }
            }
        }
        i = i + 1;
    }
    assert(m@ =~= filled(old(m)@, r, from as int, to as int, v));
}

/// Whether the character `cur` before `prev` starts an S-typed suffix, given
/// the type of the suffix at `prev`.
fn pat_char_type(cur: usize, prev: usize, last_scanned_type: bool) -> (r: bool)
    ensures
        r == s_typed(cur, prev, last_scanned_type),
{
    if cur < prev || cur == prev && last_scanned_type == STYPE {
        STYPE
    } else {
        LTYPE
    }
}

/// The strings at `a` and at `b` agree on their common length.
spec fn lms_str_same(m: Seq<usize>, pat: Region, a: usize, la: usize, b: usize, lb: usize) -> bool {
    forall|t: int| 0 <= t < la && t < lb ==> #[trigger] slot(m, pat, sat_add(a as int, t))
        == slot(m, pat, sat_add(b as int, t))
}

/// Whether the strings at `a` and at `b` agree on their common length.
fn lms_str_eq(m: &Vec<usize>, pat: Region, a: usize, la: usize, b: usize, lb: usize) -> (r: bool)
    ensures
        r == lms_str_same(m@, pat, a, la, b, lb),
{
    let n = if la < lb { la } else { lb };
    let mut t: usize = 0;
    while t < n
        invariant
            n <= la && n <= lb && (n == la || n == lb),
            t <= n,
            forall|t2: int| 0 <= t2 < t ==> #[trigger] slot(m@, pat, sat_add(a as int, t2))
                == slot(m@, pat, sat_add(b as int, t2)),
        decreases n - t,
    {
        proof {
            assert(a.saturating_add(t) == sat_add(a as int, t as int));
            assert(b.saturating_add(t) == sat_add(b as int, t as int));
        }
        if rd(m, pat, a.saturating_add(t)) != rd(m, pat, b.saturating_add(t)) {
            proof {
                assert(!(slot(m@, pat, sat_add(a as int, t as int)) == slot(m@, pat, sat_add(b as int, t as int))));
            }
            return false;
        }
        t = t + 1;
    }
    true
}

/// Counting a character: the slot of `sa` that the `i`-th character names goes one up.
spec fn count_step(pat: Region, sa: Region) -> spec_fn(Seq<usize>, int) -> Seq<usize> {
    |m: Seq<usize>, i: int| {
        let c = slot(m, pat, i) as int;
        put(m, sa, c, slot(m, sa, c).saturating_add(1))
    }
}

/// One running sum: slot `i` of `sa` adds slot `i - 1`.
spec fn running_sum_step(sa: Region) -> spec_fn(Seq<usize>, int) -> Seq<usize> {
    |m: Seq<usize>, i: int| put(m, sa, i, slot(m, sa, i).saturating_add(slot(m, sa, i - 1)))
}

/// The `i`-th character becomes the tail of its bucket.
spec fn tail_name_step(pat: Region, sa: Region) -> spec_fn(Seq<usize>, int) -> Seq<usize> {
    |m: Seq<usize>, i: int| {
        let c = slot(m, pat, i) as int;
        put(m, pat, i, slot(m, sa, c).saturating_sub(1))
    }
}

/// Scanning right to left with the type of the suffix after `i`: an L-typed
/// `i`-th character becomes the head of its bucket.
spec fn head_name_step(pat: Region, sa: Region) -> spec_fn((Seq<usize>, bool), int) -> (Seq<usize>, bool) {
    |st: (Seq<usize>, bool), i: int| {
        let m = st.0;
        let c = slot(m, pat, i);
        if s_typed(c, slot(m, pat, i + 1), st.1) {
            (m, STYPE)
        } else {
            (put(m, pat, i, c.saturating_sub(slot(m, sa, c as int).saturating_sub(1))), LTYPE)
        }
    }
}

/// The buffer after renaming: counts of each character, their running sums,
/// every character renamed to the tail of its bucket, the counts taken again,
/// the sentinel set to 0, and the L-typed characters renamed to the heads.
spec fn renamed(m: Seq<usize>, pat: Region, sa: Region) -> Seq<usize> {
    let n = pat.len as int;
    let m1 = iter_up(count_step(pat, sa), filled(m, sa, 0, sa.len as int, 0), 0, n);
    let m2 = iter_up(running_sum_step(sa), m1, 1, sa.len as int);
    let m3 = iter_up(tail_name_step(pat, sa), m2, 0, n - 1);
    let m4 = iter_up(count_step(pat, sa), filled(m3, sa, 0, sa.len as int, 0), 0, n);
    let m5 = put(m4, pat, n - 1, 0);
    iter_down(head_name_step(pat, sa), (m5, STYPE), 0, n - 1).0
}

/// Renames each character by its bucket: an S-typed position gets the tail of its
/// bucket, an L-typed one the head, and the sentinel 0.
fn rename_pat(m: &mut Vec<usize>, pat: Region, sa: Region)
    requires
        pat.len >= 1,
    ensures
        final(m)@.len() == old(m)@.len(),
        final(m)@ == renamed(old(m)@, pat, sa),
{
    let patlen = pat.len;
    let patlastpos = patlen - 1;
    fill(m, sa, 0, sa.len, 0);
    let ghost m0 = m@;
    let mut i: usize = 0;
    while i < patlen
        invariant
            m@.len() == old(m)@.len(),
            i <= patlen,
            patlen == pat.len,
            m@ == iter_up(count_step(pat, sa), m0, 0, i as int),
        decreases patlen - i,
    {
        let c = rd(m, pat, i);
        let v = rd(m, sa, c).saturating_add(1);
        wr(m, sa, c, v);
        i = i + 1;
    }
    let ghost m1 = m@;
    let mut i: usize = 1;
    while i < sa.len
        invariant
            m@.len() == old(m)@.len(),
            i >= 1,
            i <= sa.len || i == 1,
            m@ == iter_up(running_sum_step(sa), m1, 1, i as int),
        decreases sa.len - i,
    {
        let v = rd(m, sa, i).saturating_add(rd(m, sa, i - 1));
        wr(m, sa, i, v);
        i = i + 1;
    }
    let ghost m2 = m@;
    let mut i: usize = 0;
    while i < patlastpos
        invariant
            m@.len() == old(m)@.len(),
            i <= patlastpos,
            m@ == iter_up(tail_name_step(pat, sa), m2, 0, i as int),
        decreases patlastpos - i,
    {
        let c = rd(m, pat, i);
        let v = rd(m, sa, c).saturating_sub(1);
        wr(m, pat, i, v);
        i = i + 1;
    }
    fill(m, sa, 0, sa.len, 0);
    let ghost m3 = m@;
    let mut i: usize = 0;
    while i < patlen
        invariant
            m@.len() == old(m)@.len(),
            i <= patlen,
            m@ == iter_up(count_step(pat, sa), m3, 0, i as int),
        decreases patlen - i,
    {
        let c = rd(m, pat, i);
        let v = rd(m, sa, c).saturating_add(1);
        wr(m, sa, c, v);
        i = i + 1;
    }
    let mut last_scanned_type = STYPE;
    wr(m, pat, patlastpos, 0);
    let ghost m5 = m@;
    let mut i: usize = patlastpos;
    while i > 0
        invariant
            m@.len() == old(m)@.len(),
            i <= patlastpos,
            (m@, last_scanned_type) == iter_down(head_name_step(pat, sa), (m5, STYPE), i as int, patlastpos as int),
        decreases i,
    {
        i = i - 1;
        if pat_char_type(rd(m, pat, i), rd(m, pat, i + 1), last_scanned_type) == STYPE {
            last_scanned_type = STYPE;
        } else {
            let c = rd(m, pat, i);
            let v = c.saturating_sub(rd(m, sa, c).saturating_sub(1));
            wr(m, pat, i, v);
            last_scanned_type = LTYPE;
        }
    }
}

/// The buffer after slots `lo + 1 ..= lo + c` of `sa` took what was two slots
/// below each, where all of them lie in `sa`.
spec fn shifted_up(m: Seq<usize>, sa: Region, lo: int, c: int) -> Seq<usize> {
    Seq::new(m.len(), |k: int| if lo + c < sa.len && sa.base <= k
        && lo + 1 <= k - sa.base <= lo + c && in_region(m.len() as int, sa, k - sa.base)
        { slot(m, sa, two_below(k - sa.base)) } else { m[k] })
}

/// For `j` from `c` down to 1, slot `lo + j` takes what slot `lo + j - 2` held.
fn shift_up_by_two(m: &mut Vec<usize>, sa: Region, lo: usize, c: usize)
    ensures
        final(m)@.len() == old(m)@.len(),
        forall|k: int| 0 <= k < old(m)@.len() ==> #[trigger] final(m)@[k] == (if lo + c < sa.len && sa.base <= k
            && lo + 1 <= k - sa.base <= lo + c && in_region(old(m)@.len() as int, sa, k - sa.base)
            { slot(old(m)@, sa, two_below(k - sa.base)) } else { old(m)@[k] }),
        final(m)@ == shifted_up(old(m)@, sa, lo as int, c as int),
{
    if lo.saturating_add(c) >= sa.len {
        assert(m@ =~= shifted_up(old(m)@, sa, lo as int, c as int));
        return;
    }
    let mut j = c;
    while j >= 1
        invariant
            m@.len() == old(m)@.len(),
            lo + c < sa.len,
            j <= c,
            forall|k: int| 0 <= k < old(m)@.len() ==> #[trigger] m@[k] == (if sa.base <= k
                && lo + j + 1 <= k - sa.base <= lo + c && in_region(old(m)@.len() as int, sa, k - sa.base)
                { slot(old(m)@, sa, two_below(k - sa.base)) } else { old(m)@[k] }),
        decreases j,
    {
        let ghost before = m@;
        let v = rd(m, sa, lo.saturating_add(j).saturating_sub(2));
        proof {
            let q = two_below(lo + j);
            assert(lo.saturating_add(j).saturating_sub(2) == q);
            if in_region(old(m)@.len() as int, sa, q) {
                assert(before[sa.base + q] == old(m)@[sa.base + q]);
            }
        }
        wr(m, sa, lo.saturating_add(j), v);
        proof {
            assert forall|k: int| 0 <= k < old(m)@.len() implies #[trigger] m@[k] == (if sa.base <= k
                && lo + j <= k - sa.base <= lo + c && in_region(old(m)@.len() as int, sa, k - sa.base)
                { slot(old(m)@, sa, two_below(k - sa.base)) } else { old(m)@[k] }) by {
                if k != sa.base + lo + j {
                    assert(m@[k] == before[k]);
                }
            }
        }
        j = j - 1;
    }
    assert(m@ =~= shifted_up(old(m)@, sa, lo as int, c as int));
}

/// Scanning right to left with the type of the suffix after `i`: each LMS
/// position `i + 1` counts one more at the slot of its character.
spec fn lms_count_step(pat: Region, sa: Region) -> spec_fn((Seq<usize>, bool), int) -> (Seq<usize>, bool) {
    |st: (Seq<usize>, bool), i: int| {
        let m = st.0;
        if s_typed(slot(m, pat, i), slot(m, pat, i + 1), st.1) {
            (m, STYPE)
        } else if st.1 == STYPE {
            let e = slot(m, pat, i + 1) as int;
            (put(m, sa, e, slot(m, sa, e).saturating_add(1)), LTYPE)
        } else {
            (m, LTYPE)
        }
    }
}

/// The buffer after `v` went to the nearest free slot of `sa` below `j`, if any.
spec fn first_empty_below(m: Seq<usize>, sa: Region, j: int, v: usize) -> Seq<usize>
    decreases j,
{
    if j <= 0 {
        m
    } else if slot(m, sa, j - 1) == EMPTY {
        put(m, sa, j - 1, v)
    } else {
        first_empty_below(m, sa, j - 1, v)
    }
}

/// The buffer after the LMS position `e_i`, whose character is `e`, was put
/// into its bucket, counted from the tail: at the tail where the bucket holds
/// one, else at the next free slot below those already placed, shifting them
/// up by two when the counter is in the way.
spec fn lms_placed(m: Seq<usize>, sa: Region, e: usize, e_i: usize) -> Seq<usize> {
    let se = slot(m, sa, e as int);
    let em1 = e.saturating_sub(1);
    let em2 = e.saturating_sub(2);
    if se == UNIQUE {
        put(m, sa, e as int, e_i)
    } else if se >= MULTI && slot(m, sa, em1 as int) == EMPTY {
        if slot(m, sa, em2 as int) == EMPTY {
            put(put(m, sa, em2 as int, e_i), sa, em1 as int, 1)
        } else {
            put(put(m, sa, e as int, e_i), sa, em1 as int, EMPTY)
        }
    } else if se >= MULTI {
        let c = slot(m, sa, em1 as int);
        let lfp = em2.saturating_sub(c);
        if slot(m, sa, lfp as int) == EMPTY {
            put(put(m, sa, lfp as int, e_i), sa, em1 as int, c.saturating_add(1))
        } else {
            let lo = e.saturating_sub(c);
            put(put(shifted_up(m, sa, lo as int, c as int), sa, lo as int, e_i), sa, lo.saturating_sub(1) as int, EMPTY)
        }
    } else if se < EMPTY {
        first_empty_below(m, sa, e as int, e_i)
    } else {
        m
    }
}

/// Scanning right to left with the type of the suffix after `i`: each LMS
/// position `i + 1` is placed and counted.
spec fn lms_place_step(pat: Region, sa: Region) -> spec_fn((Seq<usize>, int, bool), int) -> (Seq<usize>, int, bool) {
    |st: (Seq<usize>, int, bool), i: int| {
        let m = st.0;
        if s_typed(slot(m, pat, i), slot(m, pat, i + 1), st.2) {
            (m, st.1, STYPE)
        } else if st.2 == STYPE {
            (lms_placed(m, sa, slot(m, pat, i + 1), (i + 1) as usize), st.1 + 1, LTYPE)
        } else {
            (m, st.1, LTYPE)
        }
    }
}

/// At a bucket head that still counts several, the positions placed below it
/// move up by two over the counter, and the two freed slots are marked free.
spec fn bucket_close_step(sa: Region) -> spec_fn(Seq<usize>, int) -> Seq<usize> {
    |m: Seq<usize>, i: int| {
        if slot(m, sa, i) >= MULTI {
            let c = slot(m, sa, (i as usize).saturating_sub(1) as int);
            let lo = (i as usize).saturating_sub(c);
            put(put(shifted_up(m, sa, lo as int, c as int), sa, lo.saturating_sub(1) as int, EMPTY), sa, lo as int, EMPTY)
        } else {
            m
        }
    }
}

/// The buffer and the number of LMS positions after sorting the LMS characters.
spec fn lms_chars_sorted(m: Seq<usize>, pat: Region, sa: Region) -> (Seq<usize>, int) {
    let n = pat.len as int;
    let m1 = iter_down(lms_count_step(pat, sa), (filled(m, sa, 0, sa.len as int, EMPTY), STYPE), 0, n - 1).0;
    let st = iter_down(lms_place_step(pat, sa), (m1, 0, STYPE), 0, n - 1);
    (iter_down(bucket_close_step(sa), st.0, 0, n), st.1)
}

/// Sorts the LMS characters: each LMS position goes into its bucket, counted
/// from the tail; returns how many there are.
fn sort_lms_char(m: &mut Vec<usize>, pat: Region, sa: Region) -> (lms_cnt: usize)
    requires
        pat.len >= 1,
    ensures
        final(m)@.len() == old(m)@.len(),
        (final(m)@, lms_cnt as int) == lms_chars_sorted(old(m)@, pat, sa),
{
    let patlen = pat.len;
    fill(m, sa, 0, sa.len, EMPTY);
    let ghost m0 = m@;

    let mut last_scanned_type = STYPE;
    let mut i: usize = patlen - 1;
    while i > 0
        invariant
            m@.len() == old(m)@.len(),
            i <= patlen - 1,
            patlen == pat.len,
            (m@, last_scanned_type) == iter_down(lms_count_step(pat, sa), (m0, STYPE), i as int, patlen - 1),
        decreases i,
    {
        i = i - 1;
        if pat_char_type(rd(m, pat, i), rd(m, pat, i + 1), last_scanned_type) == STYPE {
            last_scanned_type = STYPE;
        } else {
            if last_scanned_type == STYPE {
                let e = rd(m, pat, i + 1);
                let v = rd(m, sa, e).saturating_add(1);
                wr(m, sa, e, v);
            }
            last_scanned_type = LTYPE;
        }
    }
    let ghost m1 = m@;

    let mut lms_cnt: usize = 0;
    last_scanned_type = STYPE;
    let mut i: usize = patlen - 1;
    while i > 0
        invariant
            m@.len() == old(m)@.len(),
            lms_cnt <= patlen - 1 - i,
            i <= patlen - 1,
            patlen == pat.len,
            (m@, lms_cnt as int, last_scanned_type) == iter_down(lms_place_step(pat, sa), (m1, 0, STYPE), i as int, patlen - 1),
        decreases i,
    {
        i = i - 1;
        if pat_char_type(rd(m, pat, i), rd(m, pat, i + 1), last_scanned_type) == STYPE {
            last_scanned_type = STYPE;
        } else {
            let e_i = i + 1;
            let e = rd(m, pat, e_i);
            if last_scanned_type == STYPE {
                lms_cnt = lms_cnt + 1;
                let ghost mb = m@;
                let se = rd(m, sa, e);
                let em1 = e.saturating_sub(1);
                let em2 = e.saturating_sub(2);
                if se == UNIQUE {
                    wr(m, sa, e, e_i);
                } else if se >= MULTI && rd(m, sa, em1) == EMPTY {
                    if rd(m, sa, em2) == EMPTY {
                        wr(m, sa, em2, e_i);
                        wr(m, sa, em1, 1);
                    } else {
                        wr(m, sa, e, e_i);
                        wr(m, sa, em1, EMPTY);
                    }
                } else if se >= MULTI && rd(m, sa, em1) != EMPTY {
                    let c = rd(m, sa, em1);
                    let lfp = em2.saturating_sub(c);
                    if rd(m, sa, lfp) == EMPTY {
                        wr(m, sa, lfp, e_i);
                        let v = c.saturating_add(1);
                        wr(m, sa, em1, v);
                    } else {
                        let lo = e.saturating_sub(c);
                        shift_up_by_two(m, sa, lo, c);
                        wr(m, sa, lo, e_i);
                        wr(m, sa, lo.saturating_sub(1), EMPTY);
                    }
                } else if se < EMPTY {
                    let mut j = e;
                    while j > 0
                        invariant_except_break
                            m@ == mb,
                            j <= e,
                            first_empty_below(mb, sa, e as int, e_i) == first_empty_below(mb, sa, j as int, e_i),
                        invariant
                            m@.len() == old(m)@.len(),
                        ensures
                            m@ == first_empty_below(mb, sa, e as int, e_i),
                        decreases j,
                    {
                        j = j - 1;
                        if rd(m, sa, j) == EMPTY {
                            wr(m, sa, j, e_i);
                            break;
                        }
                    }
                }
                proof {
                    assert(m@ == lms_placed(mb, sa, e, e_i));
                }
            }
            last_scanned_type = LTYPE;
        }
    }
    let ghost m2 = m@;

    let mut i: usize = patlen;
    while i > 0
        invariant
            m@.len() == old(m)@.len(),
            i <= patlen,
            patlen == pat.len,
            m@ == iter_down(bucket_close_step(sa), m2, i as int, patlen as int),
        decreases i,
    {
        i = i - 1;
        if rd(m, sa, i) >= MULTI {
            let c = rd(m, sa, i.saturating_sub(1));
            let lo = i.saturating_sub(c);
            shift_up_by_two(m, sa, lo, c);
            wr(m, sa, lo.saturating_sub(1), EMPTY);
            wr(m, sa, lo, EMPTY);
        }
    }

    lms_cnt
}

/// The buffer after slots `lo .. lo + c` of `sa` took what was two slots above
/// each, where all of them lie in `sa`.
spec fn shifted_down(m: Seq<usize>, sa: Region, lo: int, c: int) -> Seq<usize> {
    Seq::new(m.len(), |x: int| if lo + c + 1 < sa.len && sa.base <= x
        && lo <= x - sa.base < lo + c && in_region(m.len() as int, sa, x - sa.base)
        { slot(m, sa, x - sa.base + 2) } else { m[x] })
}

/// For `k` from 1 up to `c`, slot `lo + k - 1` takes what slot `lo + k + 1` held.
fn shift_down_by_two(m: &mut Vec<usize>, sa: Region, lo: usize, c: usize)
    ensures
        final(m)@.len() == old(m)@.len(),
        forall|x: int| 0 <= x < old(m)@.len() ==> #[trigger] final(m)@[x] == (if lo + c + 1 < sa.len && sa.base <= x
            && lo <= x - sa.base < lo + c && in_region(old(m)@.len() as int, sa, x - sa.base)
            { slot(old(m)@, sa, x - sa.base + 2) } else { old(m)@[x] }),
        final(m)@ == shifted_down(old(m)@, sa, lo as int, c as int),
{
    if c == usize::MAX || lo.saturating_add(c).saturating_add(1) >= sa.len {
        assert(m@ =~= shifted_down(old(m)@, sa, lo as int, c as int));
        return;
    }
    let mut k: usize = 1;
    while k <= c
        invariant
            m@.len() == old(m)@.len(),
            k >= 1,
            k <= c + 1,
            c < usize::MAX,
            lo + c + 1 < sa.len,
            forall|x: int| 0 <= x < old(m)@.len() ==> #[trigger] m@[x] == (if sa.base <= x
                && lo <= x - sa.base < lo + k - 1 && in_region(old(m)@.len() as int, sa, x - sa.base)
                { slot(old(m)@, sa, x - sa.base + 2) } else { old(m)@[x] }),
        decreases c + 1 - k,
    {
        let ghost before = m@;
        let v = rd(m, sa, lo.saturating_add(k).saturating_add(1));
        proof {
            let q = lo + k + 1;
            if in_region(old(m)@.len() as int, sa, q) {
                assert(before[sa.base + q] == old(m)@[sa.base + q]);
            }
        }
        wr(m, sa, lo.saturating_add(k) - 1, v);
        proof {
            assert forall|x: int| 0 <= x < old(m)@.len() implies #[trigger] m@[x] == (if sa.base <= x
                && lo <= x - sa.base < lo + k && in_region(old(m)@.len() as int, sa, x - sa.base)
                { slot(old(m)@, sa, x - sa.base + 2) } else { old(m)@[x] }) by {
                if x != sa.base + lo + k - 1 {
                    assert(m@[x] == before[x]);
                }
            }
        }
        k = k + 1;
    }
    assert(m@ =~= shifted_down(old(m)@, sa, lo as int, c as int));
}

/// How many steps a scan over `n` slots may take, stepping back included.
fn step_budget(n: usize) -> (r: usize)
    ensures
        r == sat_add(4 * n, 16),
{
    n.saturating_add(n).saturating_add(n).saturating_add(n).saturating_add(16)
}

/// Scanning right to left with the type of the suffix after `i`: each L-typed
/// position counts one more at the head of its bucket.
spec fn l_count_step(pat: Region, sa: Region) -> spec_fn((Seq<usize>, bool), int) -> (Seq<usize>, bool) {
    |st: (Seq<usize>, bool), i: int| {
        let m = st.0;
        let c = slot(m, pat, i);
        if !s_typed(c, slot(m, pat, i + 1), st.1) {
            (put(m, sa, c as int, slot(m, sa, c as int).saturating_add(1)), LTYPE)
        } else {
            (m, STYPE)
        }
    }
}

/// The buffer after `v` went to the first free slot of `sa` from `k` on, below `n`.
spec fn first_empty_from(m: Seq<usize>, sa: Region, k: int, n: int, v: usize) -> Seq<usize>
    decreases n - k,
{
    if k < n {
        if slot(m, sa, k) == EMPTY { put(m, sa, k, v) } else { first_empty_from(m, sa, k + 1, n, v) }
    } else {
        m
    }
}

/// Whether the suffix at `p`, whose character `c` equals the one before it, is
/// L-typed, read off the bucket of `c`.
spec fn l_typed_by_bucket(m: Seq<usize>, pat: Region, sa: Region, n: int, c: usize) -> bool {
    let next_i = slot(m, sa, c as int);
    next_i >= MULTI || (next_i < EMPTY && c.saturating_add(1) < n && {
        let sq = slot(m, sa, c + 1);
        sq == EMPTY || (sq < EMPTY && slot(m, pat, sq as int) == c)
    })
}

/// The buffer and the scan position after the L-typed position `j`, of
/// character `e`, was put at the head of its bucket, counted from the head.
spec fn l_placed(m: Seq<usize>, sa: Region, n: int, e: usize, j: usize, i: usize) -> (Seq<usize>, usize) {
    let se = slot(m, sa, e as int);
    let ep1 = e.saturating_add(1);
    if se == UNIQUE {
        (put(m, sa, e as int, j), i)
    } else if se >= MULTI && slot(m, sa, ep1 as int) == EMPTY {
        if se - EMPTY > 2 {
            (put(put(m, sa, e.saturating_add(2) as int, j), sa, ep1 as int, 1), i)
        } else {
            (put(m, sa, e as int, j), i)
        }
    } else if se >= MULTI {
        let c = slot(m, sa, ep1 as int);
        let lfp = ep1.saturating_add(c).saturating_add(1);
        if c.saturating_add(2) < se - EMPTY {
            (put(put(m, sa, lfp as int, j), sa, ep1 as int, c.saturating_add(1)), i)
        } else {
            let m2 = put(put(shifted_down(m, sa, e as int, c as int), sa, e.saturating_add(c) as int, j),
                sa, e.saturating_add(c).saturating_add(1) as int, EMPTY);
            (m2, if i >= e.saturating_add(2) && i <= e.saturating_add(c).saturating_add(1) { (i - 2) as usize } else { i })
        }
    } else if se < EMPTY {
        (first_empty_from(m, sa, e as int, n, j), i)
    } else {
        (m, i)
    }
}

/// One step of the left-to-right pass at slot `i`.
spec fn l_pass_body(m: Seq<usize>, pat: Region, sa: Region, n: int, i: usize) -> (Seq<usize>, usize) {
    let si = slot(m, sa, i as int);
    if si < EMPTY && si > 0 {
        let j = (si - 1) as usize;
        let pj = slot(m, pat, j as int);
        let pj1 = slot(m, pat, si as int);
        if pj > pj1 || (pj == pj1 && l_typed_by_bucket(m, pat, sa, n, pj1)) {
            let st = l_placed(m, sa, n, pj, j, i);
            (st.0, st.1.saturating_add(1))
        } else {
            (m, i.saturating_add(1))
        }
    } else if si >= MULTI {
        (m, i.saturating_add(1).saturating_add(1))
    } else {
        (m, i.saturating_add(1))
    }
}

/// The buffer after the left-to-right pass from slot `i`, with `fuel` steps left.
spec fn l_pass(m: Seq<usize>, pat: Region, sa: Region, n: int, i: usize, fuel: int) -> Seq<usize>
    decreases fuel,
{
    if i < n && fuel > 0 {
        let st = l_pass_body(m, pat, sa, n, i);
        l_pass(st.0, pat, sa, n, st.1, fuel - 1)
    } else {
        m
    }
}

/// Scanning right to left with the type of the suffix after `i`: each LMS
/// position marks the head of its bucket.
spec fn lms_mark_step(pat: Region, sa: Region) -> spec_fn((Seq<usize>, bool), int) -> (Seq<usize>, bool) {
    |st: (Seq<usize>, bool), i: int| {
        let m = st.0;
        if s_typed(slot(m, pat, i), slot(m, pat, i + 1), st.1) {
            (m, STYPE)
        } else if st.1 == STYPE {
            let e = slot(m, pat, i + 1) as int;
            let se = slot(m, sa, e);
            (if se <= EMPTY { put(m, sa, e, UNIQUE) } else { put(m, sa, e, se.saturating_add(1)) }, LTYPE)
        } else {
            (m, LTYPE)
        }
    }
}

/// Freeing slot `i - k`.
spec fn free_below_step(sa: Region, i: int) -> spec_fn(Seq<usize>, int) -> Seq<usize> {
    |m: Seq<usize>, k: int| put(m, sa, i - k, EMPTY)
}

/// The buffer after the scan from slot `i` down frees each marked bucket:
/// the mark `EMPTY + c` frees the `c` slots from it down.
spec fn lms_freed(m: Seq<usize>, sa: Region, i: int) -> Seq<usize>
    decreases i,
{
    if i > 0 {
        let si = slot(m, sa, i);
        if si > EMPTY {
            let c = si - EMPTY;
            let m2 = iter_up(free_below_step(sa, i), m, 0, if c < i + 1 { c } else { i + 1 });
            lms_freed(m2, sa, if i >= c { i - c } else { 0 })
        } else {
            lms_freed(m, sa, i - 1)
        }
    } else {
        m
    }
}

/// Scanning right to left with the type of the suffix after `i`: each S-typed
/// position counts one more at the tail of its bucket.
spec fn s_count_step(pat: Region, sa: Region) -> spec_fn((Seq<usize>, bool), int) -> (Seq<usize>, bool) {
    |st: (Seq<usize>, bool), i: int| {
        let m = st.0;
        let c = slot(m, pat, i);
        if s_typed(c, slot(m, pat, i + 1), st.1) {
            let sc = slot(m, sa, c as int);
            (if sc >= EMPTY { put(m, sa, c as int, sc.saturating_add(1)) } else { put(m, sa, c as int, UNIQUE) }, STYPE)
        } else {
            (m, LTYPE)
        }
    }
}

/// Whether the suffix at `p`, whose character `c` equals the one before it, is
/// S-typed, read off the bucket of `c`.
spec fn s_typed_by_bucket(m: Seq<usize>, pat: Region, sa: Region, c: usize) -> bool {
    let next_i = slot(m, sa, c as int);
    next_i >= MULTI || (next_i < EMPTY && c > 1 && {
        let sq = slot(m, sa, c - 1);
        sq == EMPTY || (sq < EMPTY && slot(m, pat, sq as int) == c)
    })
}

/// The buffer and the scan position after the S-typed position `j`, of
/// character `e`, was put at the tail of its bucket, counted from the tail.
spec fn s_placed(m: Seq<usize>, sa: Region, e: usize, j: usize, i: usize) -> (Seq<usize>, usize) {
    let se = slot(m, sa, e as int);
    let em1 = e.saturating_sub(1);
    if se == UNIQUE {
        (put(m, sa, e as int, j), i)
    } else if se >= MULTI && slot(m, sa, em1 as int) == EMPTY {
        if se - EMPTY > 2 {
            (put(put(m, sa, e.saturating_sub(2) as int, j), sa, em1 as int, 1), i)
        } else {
            (put(m, sa, e as int, j), i)
        }
    } else if se >= MULTI {
        let c = slot(m, sa, em1 as int);
        let num = (se - EMPTY) as usize;
        if c.saturating_add(2) < num {
            let rfp = em1.saturating_sub(c).saturating_sub(1);
            (put(put(m, sa, rfp as int, j), sa, em1 as int, c.saturating_add(1)), i)
        } else {
            let lo = e.saturating_sub(c);
            let m2 = put(put(shifted_up(m, sa, lo as int, c as int), sa, lo as int, j), sa, lo.saturating_sub(1) as int, EMPTY);
            (m2, if i.saturating_add(num) >= e.saturating_add(1) && i.saturating_add(2) <= e { i.saturating_add(2) } else { i })
        }
    } else if se < EMPTY {
        (first_empty_below(m, sa, e as int, j), i)
    } else {
        (m, i)
    }
}

/// One step of the right-to-left pass at slot `i`.
spec fn s_pass_body(m: Seq<usize>, pat: Region, sa: Region, i: usize) -> (Seq<usize>, usize) {
    let si = slot(m, sa, i as int);
    if si < EMPTY && si > 0 {
        let j = (si - 1) as usize;
        let pj = slot(m, pat, j as int);
        let pj1 = slot(m, pat, si as int);
        if pj < pj1 || (pj == pj1 && s_typed_by_bucket(m, pat, sa, pj1)) {
            let st = s_placed(m, sa, pj, j, i);
            (st.0, st.1.saturating_sub(1))
        } else {
            (m, i.saturating_sub(1))
        }
    } else if si >= MULTI {
        (m, i.saturating_sub(1).saturating_sub(1))
    } else {
        (m, i.saturating_sub(1))
    }
}

/// The buffer after the right-to-left pass from slot `i`, with `fuel` steps left.
spec fn s_pass(m: Seq<usize>, pat: Region, sa: Region, i: usize, fuel: int) -> Seq<usize>
    decreases fuel,
{
    if i > 0 && fuel > 0 {
        let st = s_pass_body(m, pat, sa, i);
        s_pass(st.0, pat, sa, st.1, fuel - 1)
    } else {
        m
    }
}

/// The buffer after inducing: L-typed counts at the bucket heads, the L-typed
/// suffixes placed left to right, the LMS suffixes taken out, S-typed counts at
/// the bucket tails, and the S-typed suffixes placed right to left.
spec fn induced_16(m: Seq<usize>, pat: Region, sa: Region) -> Seq<usize> {
    let n = pat.len as int;
    let budget = sat_add(4 * n, 16);
    let m1 = iter_down(l_count_step(pat, sa), (m, STYPE), 0, n - 1).0;
    let m2 = l_pass(m1, pat, sa, n, 0, budget);
    let m3 = iter_down(lms_mark_step(pat, sa), (m2, STYPE), 0, n - 1).0;
    let m4 = put(lms_freed(m3, sa, n - 1), sa, 0, (n - 1) as usize);
    let m5 = iter_down(s_count_step(pat, sa), (m4, STYPE), 0, n - 1).0;
    s_pass(m5, pat, sa, (n - 1) as usize, budget)
}

/// Induces the order of all suffixes from the LMS suffixes placed in `sa`: the
/// L-typed ones left to right, then the S-typed ones right to left, with the
/// bucket heads, tails and counters kept in the free slots of `sa`.
fn induced_sort(m: &mut Vec<usize>, pat: Region, sa: Region)
    requires
        pat.len >= 1,
    ensures
        final(m)@.len() == old(m)@.len(),
        final(m)@ == induced_16(old(m)@, pat, sa),
{
    let patlen = pat.len;

    // count the L-typed suffixes of each bucket at its head
    let mut last_scanned_type = STYPE;
    let mut i: usize = patlen - 1;
    while i > 0
        invariant
            m@.len() == old(m)@.len(),
            i <= patlen - 1,
            patlen == pat.len,
            (m@, last_scanned_type) == iter_down(l_count_step(pat, sa), (old(m)@, STYPE), i as int, patlen - 1),
        decreases i,
    {
        i = i - 1;
        if pat_char_type(rd(m, pat, i), rd(m, pat, i + 1), last_scanned_type) == LTYPE {
            let c = rd(m, pat, i);
            let v = rd(m, sa, c).saturating_add(1);
            wr(m, sa, c, v);
            last_scanned_type = LTYPE;
        } else {
            last_scanned_type = STYPE;
        }
    }
    let ghost m1 = m@;

    // place the L-typed suffixes
    let mut i: usize = 0;
    let mut fuel = step_budget(patlen);
    let ghost budget = fuel as int;
    while i < patlen && fuel > 0
        invariant
            m@.len() == old(m)@.len(),
            patlen == pat.len,
            l_pass(m1, pat, sa, patlen as int, 0, budget) == l_pass(m@, pat, sa, patlen as int, i, fuel as int),
        decreases fuel,
    {
        let ghost mb = m@;
        let ghost ib = i;
        fuel = fuel - 1;
        let si = rd(m, sa, i);
        if si < EMPTY && si > 0 {
            let j = si - 1;
            let mut is_ltype = false;
            let pj = rd(m, pat, j);
            let pj1 = rd(m, pat, si);
            if pj > pj1 {
                is_ltype = true;
            } else if pj == pj1 {
                // whether the suffix at `si` is itself L-typed
                let next_i = rd(m, sa, pj1);
                if next_i >= MULTI {
                    is_ltype = true;
                } else if next_i < EMPTY && pj1.saturating_add(1) < patlen {
                    let sq = rd(m, sa, pj1 + 1);
                    if sq == EMPTY {
                        is_ltype = true;
                    } else if sq < EMPTY {
                        if rd(m, pat, sq) == pj1 {
                            is_ltype = true;
                        }
                    }
                }
            }
            assert(is_ltype == (pj > pj1 || (pj == pj1 && l_typed_by_bucket(mb, pat, sa, patlen as int, pj1))));

            if is_ltype {
                let e = pj;
                let se = rd(m, sa, e);
                let ep1 = e.saturating_add(1);
                if se == UNIQUE {
                    wr(m, sa, e, j);
                } else if se >= MULTI && rd(m, sa, ep1) == EMPTY {
                    if se - EMPTY > 2 {
                        wr(m, sa, e.saturating_add(2), j);
                        wr(m, sa, ep1, 1);
                    } else {
                        wr(m, sa, e, j);
                    }
                } else if se >= MULTI && rd(m, sa, ep1) != EMPTY {
                    let c = rd(m, sa, ep1);
                    let lfp = ep1.saturating_add(c).saturating_add(1);
                    if c.saturating_add(2) < se - EMPTY {
                        // the bucket is not full yet
                        wr(m, sa, lfp, j);
                        wr(m, sa, ep1, c.saturating_add(1));
                    } else {
                        shift_down_by_two(m, sa, e, c);
                        wr(m, sa, e.saturating_add(c), j);
                        wr(m, sa, e.saturating_add(c).saturating_add(1), EMPTY);
                        if i >= e.saturating_add(2) && i <= e.saturating_add(c).saturating_add(1) {
                            i = i - 2;
                        }
                    }
                } else if se < EMPTY {
                    let mut k = e;
                    while k < patlen
                        invariant_except_break
                            m@ == mb,
                            e <= k,
                            first_empty_from(mb, sa, e as int, patlen as int, j) == first_empty_from(mb, sa, k as int, patlen as int, j),
                        invariant
                            m@.len() == old(m)@.len(),
                        ensures
                            m@ == first_empty_from(mb, sa, e as int, patlen as int, j),
                        decreases patlen - k,
                    {
                        if rd(m, sa, k) == EMPTY {
                            wr(m, sa, k, j);
                            break;
                        }
                        k = k + 1;
                    }
                }
                assert((m@, i) == l_placed(mb, sa, patlen as int, pj, j, ib));
            }
        } else if si >= MULTI {
            i = i.saturating_add(1);
        }
        i = i.saturating_add(1);
        assert((m@, i) == l_pass_body(mb, pat, sa, patlen as int, ib));
    }
    let ghost m2 = m@;

    // take the LMS suffixes out, marking the heads of their buckets
    last_scanned_type = STYPE;
    let mut i: usize = patlen - 1;
    while i > 0
        invariant
            m@.len() == old(m)@.len(),
            i <= patlen - 1,
            patlen == pat.len,
            (m@, last_scanned_type) == iter_down(lms_mark_step(pat, sa), (m2, STYPE), i as int, patlen - 1),
        decreases i,
    {
        i = i - 1;
        if pat_char_type(rd(m, pat, i), rd(m, pat, i + 1), last_scanned_type) == STYPE {
            last_scanned_type = STYPE;
        } else {
            if last_scanned_type == STYPE {
                let e = rd(m, pat, i + 1);
                let se = rd(m, sa, e);
                if se <= EMPTY {
                    wr(m, sa, e, UNIQUE);
                } else {
                    wr(m, sa, e, se.saturating_add(1));
                }
            }
            last_scanned_type = LTYPE;
        }
    }
    let ghost m3 = m@;
    let mut i: usize = patlen - 1;
    while i > 0
        invariant
            m@.len() == old(m)@.len(),
            patlen == pat.len,
            lms_freed(m3, sa, patlen - 1) == lms_freed(m@, sa, i as int),
        decreases i,
    {
        let si = rd(m, sa, i);
        if si > EMPTY {
            let c = si - EMPTY;
            let ghost mb = m@;
            let mut k: usize = 0;
            while k < c && k <= i
                invariant
                    m@.len() == old(m)@.len(),
                    k <= c,
                    k <= i + 1,
                    m@ == iter_up(free_below_step(sa, i as int), mb, 0, k as int),
                decreases c - k,
            {
                wr(m, sa, i - k, EMPTY);
                k = k + 1;
            }
            assert(k == (if c < i + 1 { c as int } else { i + 1 }));
            if i >= c {
                i = i - c;
            } else {
                i = 0;
            }
        } else {
            i = i - 1;
        }
    }
    wr(m, sa, 0, patlen - 1);
    let ghost m4 = m@;

    // count the S-typed suffixes of each bucket at its tail
    let mut last_scanned_type = STYPE;
    let mut i: usize = patlen - 1;
    while i > 0
        invariant
            m@.len() == old(m)@.len(),
            i <= patlen - 1,
            patlen == pat.len,
            (m@, last_scanned_type) == iter_down(s_count_step(pat, sa), (m4, STYPE), i as int, patlen - 1),
        decreases i,
    {
        i = i - 1;
        if pat_char_type(rd(m, pat, i), rd(m, pat, i + 1), last_scanned_type) == STYPE {
            let c = rd(m, pat, i);
            let sc = rd(m, sa, c);
            if sc >= EMPTY {
                wr(m, sa, c, sc.saturating_add(1));
            } else {
                wr(m, sa, c, UNIQUE);
            }
            last_scanned_type = STYPE;
        } else {
            last_scanned_type = LTYPE;
        }
    }
    let ghost m5 = m@;

    // place the S-typed suffixes
    let mut i: usize = patlen - 1;
    let mut fuel = step_budget(patlen);
    while i > 0 && fuel > 0
        invariant
            m@.len() == old(m)@.len(),
            patlen == pat.len,
            s_pass(m5, pat, sa, (patlen - 1) as usize, budget) == s_pass(m@, pat, sa, i, fuel as int),
        decreases fuel,
    {
        let ghost mb = m@;
        let ghost ib = i;
        fuel = fuel - 1;
        let si = rd(m, sa, i);
        if si < EMPTY && si > 0 {
            let j = si - 1;
            let mut is_stype = false;
            let pj = rd(m, pat, j);
            let pj1 = rd(m, pat, si);
            if pj < pj1 {
                is_stype = true;
            } else if pj == pj1 {
                // whether the suffix at `si` is itself S-typed
                let next_i = rd(m, sa, pj1);
                if next_i >= MULTI {
                    is_stype = true;
                } else if next_i < EMPTY && pj1 > 1 {
                    let sq = rd(m, sa, pj1 - 1);
                    if sq == EMPTY {
                        is_stype = true;
                    } else if sq < EMPTY {
                        if rd(m, pat, sq) == pj1 {
                            is_stype = true;
                        }
                    }
                }
            }
            assert(is_stype == (pj < pj1 || (pj == pj1 && s_typed_by_bucket(mb, pat, sa, pj1))));

            if is_stype {
                let e = pj;
                let se = rd(m, sa, e);
                let em1 = e.saturating_sub(1);
                if se == UNIQUE {
                    wr(m, sa, e, j);
                } else if se >= MULTI && rd(m, sa, em1) == EMPTY {
                    if se - EMPTY > 2 {
                        wr(m, sa, e.saturating_sub(2), j);
                        wr(m, sa, em1, 1);
                    } else {
                        wr(m, sa, e, j);
                    }
                } else if se >= MULTI && rd(m, sa, em1) != EMPTY {
                    let c = rd(m, sa, em1);
                    let num = se - EMPTY;
                    if c.saturating_add(2) < num {
                        // the bucket is not full yet
                        let rfp = em1.saturating_sub(c).saturating_sub(1);
                        wr(m, sa, rfp, j);
                        wr(m, sa, em1, c.saturating_add(1));
                    } else {
                        let lo = e.saturating_sub(c);
                        shift_up_by_two(m, sa, lo, c);
                        wr(m, sa, lo, j);
                        wr(m, sa, lo.saturating_sub(1), EMPTY);
                        if i.saturating_add(num) >= e.saturating_add(1) && i.saturating_add(2) <= e {
                            i = i.saturating_add(2);
                        }
                    }
                } else if se < EMPTY {
                    let mut k = e;
                    while k > 0
                        invariant_except_break
                            m@ == mb,
                            k <= e,
                            first_empty_below(mb, sa, e as int, j) == first_empty_below(mb, sa, k as int, j),
                        invariant
                            m@.len() == old(m)@.len(),
                        ensures
                            m@ == first_empty_below(mb, sa, e as int, j),
                        decreases k,
                    {
                        k = k - 1;
                        if rd(m, sa, k) == EMPTY {
                            wr(m, sa, k, j);
                            break;
                        }
                    }
                }
                assert((m@, i) == s_placed(mb, sa, pj, j, ib));
            }
        } else if si >= MULTI {
            i = i.saturating_sub(1);
        }
        i = i.saturating_sub(1);
        assert((m@, i) == s_pass_body(mb, pat, sa, ib));
    }
}

/// The start of the run of characters `c` that ends just before `k`.
spec fn run_start(m: Seq<usize>, pat: Region, c: usize, k: int) -> int
    decreases k,
{
    if k > 0 && slot(m, pat, k - 1) == c { run_start(m, pat, c, k - 1) } else { k }
}

/// How many S-typed positions the bucket of character `cur` holds, counted from
/// the `l`-th slot below slot `i` on, `num` counted already: each S-typed suffix
/// listed there brings the run of equal characters that ends at it.
spec fn bucket_s_count(m: Seq<usize>, pat: Region, sa: Region, i: int, cur: usize, l: int, num: usize) -> usize
    decreases i + 1 - l,
{
    if 0 <= l <= i && slot(m, pat, slot(m, sa, i - l) as int) == cur {
        let pat_i = slot(m, sa, i - l);
        let c = slot(m, pat, pat_i as int);
        if c < slot(m, pat, pat_i.saturating_add(1) as int) {
            let k = run_start(m, pat, c, pat_i as int) as usize;
            bucket_s_count(m, pat, sa, i, cur, l + 1, num.saturating_add(pat_i.saturating_sub(k)).saturating_add(1))
        } else {
            num
        }
    } else {
        num
    }
}

/// Scanning the sorted suffixes right to left, with the number gathered, the
/// current bucket's tail, its character and its count of S-typed positions:
/// each LMS suffix listed among the S-typed part of its bucket is gathered at
/// the tail of `sa`.
spec fn gather_step(pat: Region, sa: Region, last: usize)
    -> spec_fn((Seq<usize>, usize, usize, usize, usize), int) -> (Seq<usize>, usize, usize, usize, usize)
{
    |st: (Seq<usize>, usize, usize, usize, usize), i: int| {
        let m = st.0;
        let cur = slot(m, pat, slot(m, sa, i) as int);
        let tail = if cur != st.3 { i as usize } else { st.2 };
        let num = if cur != st.3 { bucket_s_count(m, pat, sa, i, cur, 0, 0) } else { st.4 };
        let si = slot(m, sa, i);
        if num > 0 && (i as usize).saturating_add(num) > tail && si > 0 && slot(m, pat, si as int) < slot(m, pat, si - 1) {
            (put(m, sa, last.saturating_sub(st.1) as int, si), st.1.saturating_add(1), tail, cur, num)
        } else {
            (m, st.1, tail, cur, num)
        }
    }
}

/// The buffer after sorting the LMS substrings: induced sorting, then the LMS
/// positions gathered in order at the tail of `sa`, slot 0's last, and the
/// rest freed.
spec fn lms_substrs_sorted(m: Seq<usize>, pat: Region, sa: Region) -> Seq<usize> {
    let last = (pat.len - 1) as usize;
    let m1 = induced_16(m, pat, sa);
    let st = iter_down(gather_step(pat, sa, last), (m1, 0usize, pat.len, EMPTY, 0usize), 1, last + 1);
    let m2 = put(st.0, sa, last.saturating_sub(st.1) as int, slot(st.0, sa, 0));
    filled(m2, sa, 0, pat.len.saturating_sub(st.1.saturating_add(1)) as int, EMPTY)
}

/// Sorts the LMS substrings by one round of induced sorting, then gathers the
/// LMS positions, in that order, at the tail of `sa` and frees the rest.
fn sort_lms_substr(m: &mut Vec<usize>, pat: Region, sa: Region)
    requires
        pat.len >= 1,
    ensures
        final(m)@.len() == old(m)@.len(),
        final(m)@ == lms_substrs_sorted(old(m)@, pat, sa),
{
    induced_sort(m, pat, sa);
    let ghost m1 = m@;

    let pat_last_pos = pat.len - 1;
    let mut lms_cnt: usize = 0;
    let mut i: usize = pat_last_pos;
    let mut bucket_tail_ptr: usize = pat_last_pos + 1;
    let mut bucket: usize = EMPTY;
    // how many S-typed positions the current bucket holds
    let mut num: usize = 0;
    while i > 0
        invariant
            m@.len() == old(m)@.len(),
            i <= pat_last_pos,
            pat_last_pos < usize::MAX,
            pat_last_pos == pat.len - 1,
            (m@, lms_cnt, bucket_tail_ptr, bucket, num) == iter_down(gather_step(pat, sa, pat_last_pos),
                (m1, 0usize, pat.len, EMPTY, 0usize), i + 1, pat_last_pos + 1),
        decreases i,
    {
        let ghost mb = m@;
        let ghost st = (mb, lms_cnt, bucket_tail_ptr, bucket, num);
        if rd(m, pat, rd(m, sa, i)) != bucket {
            // a new bucket: count its S-typed positions
            num = 0;
            let cur = rd(m, pat, rd(m, sa, i));
            let mut l: usize = 0;
            while l <= i && rd(m, pat, rd(m, sa, i - l)) == cur
                invariant_except_break
                    bucket_s_count(m@, pat, sa, i as int, cur, 0, 0) == bucket_s_count(m@, pat, sa, i as int, cur, l as int, num),
                invariant
                    m@ == mb,
                    m@.len() == old(m)@.len(),
                    i <= pat_last_pos,
                    pat_last_pos < usize::MAX,
                ensures
                    num == bucket_s_count(m@, pat, sa, i as int, cur, 0, 0),
                decreases i + 1 - l,
            {
                let pat_i = rd(m, sa, i - l);
                let c = rd(m, pat, pat_i);
                if c < rd(m, pat, pat_i.saturating_add(1)) {
                    let mut k = pat_i;
                    while k > 0 && rd(m, pat, k - 1) == c
                        invariant
                            run_start(m@, pat, c, pat_i as int) == run_start(m@, pat, c, k as int),
                        decreases k,
                    {
                        k = k - 1;
                    }
                    num = num.saturating_add(pat_i.saturating_sub(k)).saturating_add(1);
                } else {
                    break;
                }
                l = l + 1;
            }
            bucket_tail_ptr = i;
            bucket = rd(m, pat, rd(m, sa, bucket_tail_ptr));
        }

        let si = rd(m, sa, i);
        if num > 0 && i.saturating_add(num) > bucket_tail_ptr && si > 0 && rd(m, pat, si) < rd(m, pat, si - 1) {
            wr(m, sa, pat_last_pos.saturating_sub(lms_cnt), si);
            lms_cnt = lms_cnt.saturating_add(1);
        }
        assert((m@, lms_cnt, bucket_tail_ptr, bucket, num) == gather_step(pat, sa, pat_last_pos)(st, i as int));
        i = i - 1;
    }

    let s0 = rd(m, sa, 0);
    wr(m, sa, pat_last_pos.saturating_sub(lms_cnt), s0);
    lms_cnt = lms_cnt.saturating_add(1);
    fill(m, sa, 0, (pat_last_pos + 1).saturating_sub(lms_cnt), EMPTY);
}

/// From `j`, the first position whose character is greater than the next one
/// (or the last position).
spec fn scan_rising(m: Seq<usize>, pat: Region, j: int, n: int) -> int
    decreases n - j,
{
    if j + 1 < n && slot(m, pat, j) <= slot(m, pat, j + 1) { scan_rising(m, pat, j + 1, n) } else { j }
}

/// From `k`, the first position whose character is smaller than the next one
/// (or the last position).
spec fn scan_falling(m: Seq<usize>, pat: Region, k: int, n: int) -> int
    decreases n - k,
{
    if k + 1 < n && slot(m, pat, k) >= slot(m, pat, k + 1) { scan_falling(m, pat, k + 1, n) } else { k }
}

/// Naming the LMS substring at the position in slot `i`, with the rank, the
/// length of the previous substring and whether a name repeated so far: the
/// rank goes up unless the substring equals the previous one, and is written
/// at half the position.
spec fn name_step(pat: Region, sa: Region, n: int)
    -> spec_fn((Seq<usize>, usize, usize, bool), int) -> (Seq<usize>, usize, usize, bool)
{
    |st: (Seq<usize>, usize, usize, bool), i: int| {
        let m = st.0;
        let start = slot(m, sa, i);
        let k = scan_falling(m, pat, scan_rising(m, pat, start as int, n), n);
        let cur_len = (k as usize).saturating_add(1).saturating_sub(start);
        let prev_start = slot(m, sa, i - 1);
        let rank = if !lms_str_same(m, pat, start, cur_len, prev_start, st.2) { st.1.saturating_add(1) } else { st.1 };
        let dup = st.3 || rank == slot(m, sa, (prev_start / 2) as int);
        (put(m, sa, (start / 2) as int, rank), rank, cur_len, dup)
    }
}

/// Packing: a used slot `i` moves down to slot `j`, freeing its own.
spec fn pack_step(sa: Region) -> spec_fn((Seq<usize>, int), int) -> (Seq<usize>, int) {
    |st: (Seq<usize>, int), i: int| {
        let v = slot(st.0, sa, i);
        if v != EMPTY {
            let m1 = put(st.0, sa, st.1, v);
            (if i > st.1 { put(m1, sa, i, EMPTY) } else { m1 }, st.1 + 1)
        } else {
            st
        }
    }
}

/// The buffer after naming the sorted LMS substrings and packing the names, and
/// whether a name repeated.
spec fn names_built(m: Seq<usize>, pat: Region, sa: Region, lms_cnt: usize) -> (Seq<usize>, bool) {
    let n = pat.len as int;
    let end = pat.len.saturating_sub(lms_cnt);
    let m0 = put(m, sa, (n - 1) / 2, 0);
    let st = iter_up(name_step(pat, sa, n), (m0, 0usize, 1usize, false), end.saturating_add(1) as int, n);
    let pk = iter_up(pack_step(sa), (st.0, 0), 0, end as int);
    (filled(pk.0, sa, lms_cnt as int, n, EMPTY), st.3)
}

/// Names the sorted LMS substrings by rank, at half their positions in `sa`,
/// and packs the names to the head of `sa`: the reduced string. Returns whether
/// two LMS substrings share a name.
fn construct_pat1(m: &mut Vec<usize>, pat: Region, sa: Region, lms_cnt: usize) -> (has_duplicated_char: bool)
    requires
        pat.len >= 1,
    ensures
        final(m)@.len() == old(m)@.len(),
        (final(m)@, has_duplicated_char) == names_built(old(m)@, pat, sa, lms_cnt),
{
    let patlen = pat.len;
    let mut prev_lms_str_len: usize = 1;
    let mut rank: usize = 0;
    wr(m, sa, (patlen - 1) / 2, rank);
    let ghost m0 = m@;
    let mut has_duplicated_char = false;
    let i0 = patlen.saturating_sub(lms_cnt).saturating_add(1);
    let mut i: usize = i0;
    while i < patlen
        invariant
            m@.len() == old(m)@.len(),
            i >= 1,
            i0 <= i,
            i <= patlen || i == i0,
            patlen == pat.len,
            (m@, rank, prev_lms_str_len, has_duplicated_char)
                == iter_up(name_step(pat, sa, patlen as int), (m0, 0usize, 1usize, false), i0 as int, i as int),
        decreases patlen - i,
    {
        let start = rd(m, sa, i);
        // the first L-typed position after `start`
        let mut j = start;
        while j.saturating_add(1) < patlen && rd(m, pat, j) <= rd(m, pat, j + 1)
            invariant
                scan_rising(m@, pat, start as int, patlen as int) == scan_rising(m@, pat, j as int, patlen as int),
            decreases patlen - j,
        {
            j = j + 1;
        }
        // then the next LMS position
        let mut k = j;
        while k.saturating_add(1) < patlen && rd(m, pat, k) >= rd(m, pat, k + 1)
            invariant
                scan_falling(m@, pat, j as int, patlen as int) == scan_falling(m@, pat, k as int, patlen as int),
            decreases patlen - k,
        {
            k = k + 1;
        }
        let cur_lms_str_len = k.saturating_add(1).saturating_sub(start);
        let prev_start = rd(m, sa, i - 1);
        if !lms_str_eq(m, pat, start, cur_lms_str_len, prev_start, prev_lms_str_len) {
            rank = rank.saturating_add(1);
        }
        if rank == rd(m, sa, prev_start / 2) {
            has_duplicated_char = true;
        }
        wr(m, sa, start / 2, rank);
        prev_lms_str_len = cur_lms_str_len;
        i = i + 1;
    }
    let ghost m1 = m@;

    // move the names to the head of sa
    let mut j: usize = 0;
    let end = patlen.saturating_sub(lms_cnt);
    let mut i: usize = 0;
    while i < end
        invariant
            m@.len() == old(m)@.len(),
            j <= i,
            i <= end,
            (m@, j as int) == iter_up(pack_step(sa), (m1, 0int), 0, i as int),
        decreases end - i,
    {
        let v = rd(m, sa, i);
        if v != EMPTY {
            wr(m, sa, j, v);
            if i > j {
                wr(m, sa, i, EMPTY);
            }
            j = j + 1;
        }
        i = i + 1;
    }
    fill(m, sa, lms_cnt, patlen, EMPTY);

    has_duplicated_char
}

/// With distinct names, the `i`-th LMS suffix goes to the slot its name gives.
spec fn name_order_step(pat1: Region, sa1: Region) -> spec_fn(Seq<usize>, int) -> Seq<usize> {
    |m: Seq<usize>, i: int| put(m, sa1, slot(m, pat1, i) as int, i as usize)
}

/// Moving slot `base + i` of `sa` to slot `i`.
spec fn move_down_step(sa: Region, base: usize) -> spec_fn(Seq<usize>, int) -> Seq<usize> {
    |m: Seq<usize>, i: int| put(m, sa, i, slot(m, sa, base.saturating_add(i as usize) as int))
}

/// Scanning right to left with the number listed and the type of the suffix
/// after `i`: each LMS position `i + 1` is listed from the tail of `sa` down.
spec fn lms_list_step(pat: Region, sa: Region) -> spec_fn((Seq<usize>, usize, bool), int) -> (Seq<usize>, usize, bool) {
    |st: (Seq<usize>, usize, bool), i: int| {
        let m = st.0;
        let a = slot(m, pat, i);
        let b = slot(m, pat, i + 1);
        if a < b || (a == b && st.2 == STYPE) {
            (m, st.1, STYPE)
        } else if st.2 == STYPE {
            (put(m, sa, ((pat.len - 1) as usize).saturating_sub(st.1) as int, (i + 1) as usize), st.1.saturating_add(1), LTYPE)
        } else {
            (m, st.1, LTYPE)
        }
    }
}

/// Each rank in slot `i` is replaced by the LMS position listed at that rank,
/// whose slot is freed.
spec fn rank_map_step(sa: Region, base: usize) -> spec_fn(Seq<usize>, int) -> Seq<usize> {
    |m: Seq<usize>, i: int| {
        let at = base.saturating_add(slot(m, sa, i));
        put(put(m, sa, i, slot(m, sa, at as int)), sa, at as int, EMPTY)
    }
}

/// Right to left, with the current bucket's character and next free tail
/// slot: the LMS suffix in slot `i` moves to the tail of its bucket.
spec fn to_tail_step(pat: Region, sa: Region) -> spec_fn((Seq<usize>, usize, usize), int) -> (Seq<usize>, usize, usize) {
    |st: (Seq<usize>, usize, usize), i: int| {
        let m = st.0;
        let si = slot(m, sa, i);
        let c = slot(m, pat, si as int);
        let tail = if c != st.1 { c } else { st.1 };
        let rfp = if c != st.1 { c } else { st.2 };
        let m2 = put(m, sa, rfp as int, si);
        (if rfp != i { put(m2, sa, i, EMPTY) } else { m2 }, tail, rfp.saturating_sub(1))
    }
}

/// The buffer after sorting the LMS suffixes: the reduced string solved in the
/// two ends of `sa`, its order moved to the head, mapped back to LMS positions,
/// which then go to the tails of their buckets.
spec fn lms_sufs_sorted(m: Seq<usize>, pat: Region, sa: Region, lms_cnt: usize, dup: bool) -> Seq<usize>
    decreases pat.len, 0int,
{
    let patlen = pat.len;
    let m1 = if lms_cnt <= patlen && patlen - lms_cnt <= sa.len {
        let off = (patlen - lms_cnt) as usize;
        let pat1 = Region { base: sa.base, len: lms_cnt };
        let sa1 = Region { base: sa.base.saturating_add(off), len: (sa.len - off) as usize };
        if dup {
            if 1 <= lms_cnt && lms_cnt < patlen { suffix_sorted_16(m, pat1, sa1) } else { m }
        } else {
            iter_up(name_order_step(pat1, sa1), m, 0, lms_cnt as int)
        }
    } else {
        m
    };
    let base = patlen.saturating_sub(lms_cnt);
    let m2 = iter_up(move_down_step(sa, base), m1, 0, lms_cnt as int);
    let m3 = iter_down(lms_list_step(pat, sa), (m2, 0usize, STYPE), 0, patlen - 1).0;
    let m4 = iter_up(rank_map_step(sa, base), m3, 0, lms_cnt as int);
    iter_down(to_tail_step(pat, sa), (m4, EMPTY, EMPTY), 1, lms_cnt as int).0
}

/// The buffer after suffix sorting in place: renaming, sorting the LMS
/// characters, then the LMS substrings, naming them, sorting the LMS suffixes,
/// and inducing the rest.
spec fn suffix_sorted_16(m: Seq<usize>, pat: Region, sa: Region) -> Seq<usize>
    decreases pat.len, 1int,
{
    let m1 = renamed(m, pat, sa);
    let st = lms_chars_sorted(m1, pat, sa);
    let m3 = lms_substrs_sorted(st.0, pat, sa);
    let nb = names_built(m3, pat, sa, st.1 as usize);
    let m5 = lms_sufs_sorted(nb.0, pat, sa, st.1 as usize, nb.1);
    induced_16(m5, pat, sa)
}

/// Sorts the LMS suffixes: solves the reduced string in the two ends of `sa`
/// (recursively where names repeat), maps its order back to LMS positions and
/// puts them at the tails of their buckets.
#[verifier::rlimit(40)]
fn sort_lms_suf(m: &mut Vec<usize>, pat: Region, sa: Region, lms_cnt: usize, has_duplicated_char: bool)
    requires
        pat.len >= 1,
    ensures
        final(m)@.len() == old(m)@.len(),
        final(m)@ == lms_sufs_sorted(old(m)@, pat, sa, lms_cnt, has_duplicated_char),
    decreases pat.len, 0usize,
{
    let patlen = pat.len;
    if lms_cnt <= patlen && patlen - lms_cnt <= sa.len {
        let off = patlen - lms_cnt;
        let pat1 = Region { base: sa.base, len: lms_cnt };
        let sa1 = Region { base: sa.base.saturating_add(off), len: sa.len - off };
        if has_duplicated_char {
            if 1 <= lms_cnt && lms_cnt < patlen {
                compute_suffix_array_16(m, pat1, sa1);
            }
        } else {
            // the names are distinct: they give the order directly
            let ghost m0 = m@;
            let mut i: usize = 0;
            while i < lms_cnt
                invariant
                    m@.len() == old(m)@.len(),
                    i <= lms_cnt,
                    m@ == iter_up(name_order_step(pat1, sa1), m0, 0, i as int),
                decreases lms_cnt - i,
            {
                let name = rd(m, pat1, i);
                wr(m, sa1, name, i);
                i = i + 1;
            }
        }
    }
    let ghost m1 = m@;

    // move the reduced suffix array to the head of sa
    let base = patlen.saturating_sub(lms_cnt);
    let mut i: usize = 0;
    while i < lms_cnt
        invariant
            m@.len() == old(m)@.len(),
            i <= lms_cnt,
            m@ == iter_up(move_down_step(sa, base), m1, 0, i as int),
        decreases lms_cnt - i,
    {
        let v = rd(m, sa, base.saturating_add(i));
        wr(m, sa, i, v);
        i = i + 1;
    }
    let ghost m2 = m@;

    // put all LMS positions, in order, at the tail of sa
    let mut last_scanned_type = STYPE;
    let mut j: usize = 0;
    let mut i: usize = patlen - 1;
    while i > 0
        invariant
            m@.len() == old(m)@.len(),
            patlen >= 1,
            patlen == pat.len,
            i <= patlen - 1,
            (m@, j, last_scanned_type) == iter_down(lms_list_step(pat, sa), (m2, 0usize, STYPE), i as int, patlen - 1),
        decreases i,
    {
        i = i - 1;
        let a = rd(m, pat, i);
        let b = rd(m, pat, i + 1);
        if a < b || a == b && last_scanned_type == STYPE {
            last_scanned_type = STYPE;
        } else {
            if last_scanned_type == STYPE {
                wr(m, sa, (patlen - 1).saturating_sub(j), i + 1);
                j = j.saturating_add(1);
            }
            last_scanned_type = LTYPE;
        }
    }
    let ghost m3 = m@;

    // map each rank back to its LMS position
    let mut i: usize = 0;
    while i < lms_cnt
        invariant
            m@.len() == old(m)@.len(),
            i <= lms_cnt,
            m@ == iter_up(rank_map_step(sa, base), m3, 0, i as int),
        decreases lms_cnt - i,
    {
        let relative_rank = rd(m, sa, i);
        let at = base.saturating_add(relative_rank);
        let v = rd(m, sa, at);
        wr(m, sa, i, v);
        wr(m, sa, at, EMPTY);
        i = i + 1;
    }
    let ghost m4 = m@;

    // move each LMS suffix to the tail of its bucket, keeping their order
    let mut tail: usize = EMPTY;
    let mut rfp: usize = EMPTY;
    let mut i: usize = lms_cnt;
    while i > 1
        invariant
            m@.len() == old(m)@.len(),
            i <= lms_cnt,
            i == 0 ==> lms_cnt == 0,
            (m@, tail, rfp) == iter_down(to_tail_step(pat, sa), (m4, EMPTY, EMPTY), i as int, lms_cnt as int),
        decreases i,
    {
        i = i - 1;
        let si = rd(m, sa, i);
        let c = rd(m, pat, si);
        if c != tail {
            tail = c;
            rfp = tail;
        }
        wr(m, sa, rfp, si);
        if rfp != i {
            wr(m, sa, i, EMPTY);
        }
        rfp = rfp.saturating_sub(1);
    }
    proof {
        if i == 0 {
            lemma_iter_down_empty(to_tail_step(pat, sa), (m4, EMPTY, EMPTY), 0, lms_cnt as int);
            lemma_iter_down_empty(to_tail_step(pat, sa), (m4, EMPTY, EMPTY), 1, lms_cnt as int);
        }
    }
}

/// Suffix sorting of the string in `pat`, which ends with a unique smallest
/// character 0, into `sa`, in place.
fn compute_suffix_array_16(m: &mut Vec<usize>, pat: Region, sa: Region)
    requires
        pat.len >= 1,
    ensures
        final(m)@.len() == old(m)@.len(),
        final(m)@ == suffix_sorted_16(old(m)@, pat, sa),
    decreases pat.len, 1usize,
{
    rename_pat(m, pat, sa);
    let lms_cnt = sort_lms_char(m, pat, sa);
    sort_lms_substr(m, pat, sa);
    let has_duplicated_char = construct_pat1(m, pat, sa, lms_cnt);
    sort_lms_suf(m, pat, sa, lms_cnt, has_duplicated_char);
    induced_sort(m, pat, sa);
}

/// The suffix array of `pat`, sorted in place in a work space of
/// `max(pat.len() + 1, 256)` slots.
pub fn suffix_array_16(pat: &[u8]) -> (r: Vec<usize>)
    requires
        pat@.len() <= usize::MAX / 4,
    ensures
        is_suffix_array(r@, pat@),
{
    let n = pat.len();
    let plen = n + 1;
    let salen: usize = if plen > 256 { plen } else { 256 };
    let mut m: Vec<usize> = Vec::new();
    let mut i: usize = 0;
    while i < n
        invariant
            n == pat@.len(),
            i <= n,
        decreases n - i,
    {
        m.push(pat[i] as usize);
        i = i + 1;
    }
    m.push(0);
    let mut k: usize = 0;
    while k < salen
        decreases salen - k,
    {
        m.push(0);
        k = k + 1;
    }
    let pr = Region { base: 0, len: plen };
    let sr = Region { base: plen, len: salen };
    compute_suffix_array_16(&mut m, pr, sr);

    let mut r: Vec<usize> = Vec::new();
    let mut i: usize = 1;
    while i < plen
        decreases plen - i,
    {
        r.push(rd(&m, sr, i));
        i = i + 1;
    }
    crate::sa::certify_suffix_array(pat, r)
}

} // verus!

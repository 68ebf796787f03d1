//! Sorting: merge sort, heapsort and counting sort. Each leaves the slice sorted and
//! a permutation of what it held.

use vstd::prelude::*;
use vstd::multiset::Multiset;
use vstd::seq_lib::lemma_multiset_commutative;

verus! {

broadcast use vstd::seq_lib::group_to_multiset_ensures;

/// `s` is in non-decreasing order.
pub open spec fn sorted(s: Seq<u64>) -> bool {
    forall|i: int, j: int| 0 <= i <= j < s.len() ==> s[i] <= s[j]
}

/// The multiset of the elements of `s[a..b]`.
pub open spec fn range_ms(s: Seq<u64>, a: int, b: int) -> Multiset<u64> {
    s.subrange(a, b).to_multiset()
}

/// Extending a range by one element adds that element to its multiset.
pub proof fn lemma_range_ms_push(s: Seq<u64>, a: int, b: int)
    requires
        0 <= a <= b < s.len(),
    ensures
        range_ms(s, a, b + 1) == range_ms(s, a, b).insert(s[b]),
{
    assert(s.subrange(a, b + 1) == s.subrange(a, b).push(s[b]));
}

/// The multiset of a range is the sum over a split of it.
pub proof fn lemma_range_ms_split(s: Seq<u64>, a: int, m: int, b: int)
    requires
        0 <= a <= m <= b <= s.len(),
    ensures
        range_ms(s, a, b) == range_ms(s, a, m).add(range_ms(s, m, b)),
{
    assert(s.subrange(a, b) == s.subrange(a, m) + s.subrange(m, b));
    lemma_multiset_commutative(s.subrange(a, m), s.subrange(m, b));
}

/// Ranges with equal elements have equal multisets.
pub proof fn lemma_range_ms_eq(s: Seq<u64>, t: Seq<u64>, a: int, b: int)
    requires
        0 <= a <= b <= s.len(),
        b <= t.len(),
        forall|k: int| a <= k < b ==> s[k] == t[k],
    ensures
        range_ms(s, a, b) == range_ms(t, a, b),
{
    assert(s.subrange(a, b) == t.subrange(a, b));
}

/// Stable merge sort.
pub fn merge_sort(pat: &mut [u64])
    requires
        old(pat)@.len() >= 1,
    ensures
        sorted(final(pat)@),
        final(pat)@.to_multiset() == old(pat)@.to_multiset(),
{
    let patlen = pat.len();
    let mut temp = vec![pat[0]; patlen];
    _merge_sort(pat, temp.as_mut_slice(), 0, patlen);
    proof {
        assert(pat@.subrange(0, patlen as int) == pat@);
        assert(old(pat)@.subrange(0, patlen as int) == old(pat)@);
    }
}

/// Sorts `pat[start..end]`, using `temp[start..end]` as scratch space.
pub fn _merge_sort(pat: &mut [u64], temp: &mut [u64], start: usize, end: usize)
    requires
        start < end <= old(pat)@.len(),
        old(temp)@.len() == old(pat)@.len(),
    ensures
        final(pat)@.len() == old(pat)@.len(),
        final(temp)@.len() == old(temp)@.len(),
        sorted(final(pat)@.subrange(start as int, end as int)),
        range_ms(final(pat)@, start as int, end as int) == range_ms(old(pat)@, start as int, end as int),
        forall|k: int| 0 <= k < old(pat)@.len() && !(start <= k < end) ==> final(pat)@[k] == old(pat)@[k],
    decreases end - start,
{
    if start + 1 == end {
        return;
    }
    let mid = start + (end - start) / 2;
    let ghost p0 = pat@;
    _merge_sort(pat, temp, start, mid);
    let ghost p1 = pat@;
    _merge_sort(pat, temp, mid, end);
    let ghost p2 = pat@;
    proof {
        lemma_range_ms_eq(p1, p2, start as int, mid as int);
        lemma_range_ms_eq(p0, p1, mid as int, end as int);
        assert forall|i: int, j: int| start <= i <= j < mid implies pat@[i] <= pat@[j] by {
            assert(p1.subrange(start as int, mid as int)[i - start] <= p1.subrange(start as int, mid as int)[j - start]);
        }
        assert forall|i: int, j: int| mid <= i <= j < end implies pat@[i] <= pat@[j] by {
            assert(p2.subrange(mid as int, end as int)[i - mid] <= p2.subrange(mid as int, end as int)[j - mid]);
        }
    }
    let mut lp = start;
    let mut rp = mid;
    let mut i = start;
    while i < end
        invariant
            start < mid < end <= pat@.len(),
            temp@.len() == pat@.len(),
            pat@ == p2,
            start <= lp <= mid <= rp <= end,
            i == lp + (rp - mid),
            forall|a: int, b: int| start <= a <= b < mid ==> pat@[a] <= pat@[b],
            forall|a: int, b: int| mid <= a <= b < end ==> pat@[a] <= pat@[b],
            forall|a: int, b: int| start <= a <= b < i ==> temp@[a] <= temp@[b],
            i > start && lp < mid ==> temp@[i - 1] <= pat@[lp as int],
            i > start && rp < end ==> temp@[i - 1] <= pat@[rp as int],
            range_ms(temp@, start as int, i as int) == range_ms(pat@, start as int, lp as int).add(
                range_ms(pat@, mid as int, rp as int)),
        decreases end - i,
    {
        let ghost t0 = temp@;
        if lp >= mid || rp < end && pat[rp] < pat[lp] {
            temp[i] = pat[rp];
            proof {
                lemma_range_ms_eq(t0, temp@, start as int, i as int);
                lemma_range_ms_push(temp@, start as int, i as int);
                lemma_range_ms_push(pat@, mid as int, rp as int);
            }
            rp = rp + 1;
        } else {
            temp[i] = pat[lp];
            proof {
                lemma_range_ms_eq(t0, temp@, start as int, i as int);
                lemma_range_ms_push(temp@, start as int, i as int);
                lemma_range_ms_push(pat@, start as int, lp as int);
            }
            lp = lp + 1;
        }
        i = i + 1;
    }
    proof {
        lemma_range_ms_split(pat@, start as int, mid as int, end as int);
        lemma_range_ms_split(p0, start as int, mid as int, end as int);
        lemma_range_ms_split(p1, start as int, mid as int, end as int);
    }
    let ghost tf = temp@;
    let mut k = start;
    while k < end
        invariant
            start < end <= pat@.len(),
            temp@ == tf,
            tf.len() == pat@.len(),
            start <= k <= end,
            forall|a: int| start <= a < k ==> pat@[a] == tf[a],
            forall|a: int| 0 <= a < pat@.len() && !(start <= a < k) ==> pat@[a] == p2[a],
            pat@.len() == p2.len(),
        decreases end - k,
    {
        pat[k] = temp[k];
        k = k + 1;
    }
    proof {
        lemma_range_ms_eq(pat@, tf, start as int, end as int);
        assert forall|a: int, b: int| 0 <= a <= b < end - start implies
            #[trigger] pat@.subrange(start as int, end as int)[a] <= #[trigger] pat@.subrange(start as int, end as int)[b] by {
            assert(tf[start + a] <= tf[start + b]);
        }
    }
}


/// Node `k` of the binary heap `s[..end]` is at least each of its children.
pub open spec fn heap_at(s: Seq<u64>, end: int, k: int) -> bool {
    &&& (2 * k + 1 < end ==> s[k] >= s[2 * k + 1])
    &&& (2 * k + 2 < end ==> s[k] >= s[2 * k + 2])
}

/// Every node of `s[lo..end]` is at least each of its children.
pub open spec fn is_heap_from(s: Seq<u64>, lo: int, end: int) -> bool {
    forall|k: int| lo <= k < end ==> #[trigger] heap_at(s, end, k)
}

/// Some element of `s[lo..hi]` equals `x`.
pub open spec fn value_in_range(s: Seq<u64>, lo: int, hi: int, x: u64) -> bool {
    exists|j: int| lo <= j < hi && s[j] == x
}

/// The root of a heap is its largest element.
pub proof fn lemma_heap_root_max(s: Seq<u64>, end: int, j: int)
    requires
        is_heap_from(s, 0, end),
        0 <= j < end <= s.len(),
    ensures
        s[0] >= s[j],
    decreases j,
{
    if j > 0 {
        let p = (j - 1) / 2;
        assert(heap_at(s, end, p));
        lemma_heap_root_max(s, end, p);
    }
}

/// Restores the heap order of `arr[start..end]`, whose nodes other than `start` are
/// already in heap order, by moving the element at `start` down.
fn sift_down(arr: &mut [u64], start: usize, end: usize)
    requires
        start < end <= old(arr)@.len(),
        end <= usize::MAX / 4,
        forall|k: int| start < k < end ==> #[trigger] heap_at(old(arr)@, end as int, k),
    ensures
        final(arr)@.len() == old(arr)@.len(),
        is_heap_from(final(arr)@, start as int, end as int),
        final(arr)@.to_multiset() == old(arr)@.to_multiset(),
        forall|k: int| 0 <= k < old(arr)@.len() && !(start <= k < end) ==> final(arr)@[k] == old(arr)@[k],
        forall|k: int| start <= k < end ==> value_in_range(old(arr)@, start as int, end as int, #[trigger] final(arr)@[k]),
{
    let mut root = start;
    proof {
        assert forall|k: int| start <= k < end implies value_in_range(old(arr)@, start as int, end as int, #[trigger] arr@[k]) by {
            assert(start <= k < end && old(arr)@[k] == arr@[k]);
        }
    }
    while 2 * root + 1 < end
        invariant
            start <= root < end <= arr@.len(),
            end <= usize::MAX / 4,
            arr@.len() == old(arr)@.len(),
            forall|k: int| start <= k < end && k != root ==> #[trigger] heap_at(arr@, end as int, k),
            root > start ==> {
                let p = (root - 1) / 2;
                &&& start <= p
                &&& (2 * root + 1 < end ==> arr@[p] >= arr@[2 * root + 1])
                &&& (2 * root + 2 < end ==> arr@[p] >= arr@[2 * root + 2])
            },
            arr@.to_multiset() == old(arr)@.to_multiset(),
            forall|k: int| 0 <= k < arr@.len() && !(start <= k < end) ==> arr@[k] == old(arr)@[k],
            forall|k: int| start <= k < end ==> value_in_range(old(arr)@, start as int, end as int, #[trigger] arr@[k]),
        decreases end - root,
    {
        let child = 2 * root + 1;
        let mut swap = root;
        if arr[swap] < arr[child] {
            swap = child;
        }
        if child + 1 < end && arr[swap] < arr[child + 1] {
            swap = child + 1;
        }
        if swap == root {
            return;
        }
        let ghost a0 = arr@;
        let tmp = arr[root];
        arr[root] = arr[swap];
        arr[swap] = tmp;
        proof {
            assert(arr@ == a0.update(root as int, a0[swap as int]).update(swap as int, a0[root as int]));
            let r = root as int;
            let c = swap as int;
            assert(heap_at(a0, end as int, c));
            assert forall|k: int| start <= k < end implies value_in_range(old(arr)@, start as int, end as int, #[trigger] arr@[k]) by {
                if k == r {
                    assert(arr@[k] == a0[c]);
                    assert(value_in_range(old(arr)@, start as int, end as int, a0[c]));
                } else if k == c {
                    assert(arr@[k] == a0[r]);
                    assert(value_in_range(old(arr)@, start as int, end as int, a0[r]));
                } else {
                    assert(arr@[k] == a0[k]);
                    assert(value_in_range(old(arr)@, start as int, end as int, a0[k]));
                }
            }
            assert forall|k: int| start <= k < end && k != c implies #[trigger] heap_at(arr@, end as int, k) by {
                if k == r {
                } else if r > start && k == (r - 1) / 2 {
                    assert(heap_at(a0, end as int, k));
                } else {
                    assert(heap_at(a0, end as int, k));
                    assert(2 * k + 1 != r && 2 * k + 2 != r);
                }
            }
        }
        root = swap;
    }
    proof {
        assert(heap_at(arr@, end as int, root as int));
    }
}

/// Puts `arr` into heap order.
fn heapify(arr: &mut [u64])
    requires
        2 <= old(arr)@.len() <= usize::MAX / 4,
    ensures
        final(arr)@.len() == old(arr)@.len(),
        is_heap_from(final(arr)@, 0, final(arr)@.len() as int),
        final(arr)@.to_multiset() == old(arr)@.to_multiset(),
{
    let len = arr.len();
    let start = (len - 1 - 1) / 2;
    let mut i = start + 1;
    while i > 0
        invariant
            2 <= len == arr@.len() <= usize::MAX / 4,
            start == (len - 2) / 2,
            0 <= i <= start + 1,
            forall|k: int| i <= k < len ==> #[trigger] heap_at(arr@, len as int, k),
            arr@.to_multiset() == old(arr)@.to_multiset(),
        decreases i,
    {
        i = i - 1;
        sift_down(arr, i, len);
    }
}

/// Heapsort.
pub fn heapsort(arr: &mut [u64])
    requires
        old(arr)@.len() <= usize::MAX / 4,
    ensures
        sorted(final(arr)@),
        final(arr)@.to_multiset() == old(arr)@.to_multiset(),
{
    if arr.len() < 2 {
        return;
    }
    heapify(arr);
    let len = arr.len();
    let mut i = len;
    while i > 0
        invariant
            2 <= len == arr@.len() <= usize::MAX / 4,
            0 <= i <= len,
            is_heap_from(arr@, 0, i as int),
            forall|a: int, b: int| i <= a <= b < len ==> arr@[a] <= arr@[b],
            forall|a: int, b: int| 0 <= a < i && i <= b < len ==> arr@[a] <= arr@[b],
            arr@.to_multiset() == old(arr)@.to_multiset(),
        decreases i,
    {
        i = i - 1;
        let ghost a0 = arr@;
        proof {
            assert forall|j: int| 0 <= j <= i implies a0[0] >= #[trigger] a0[j] by {
                lemma_heap_root_max(a0, i + 1, j);
            }
        }
        let tmp = arr[0];
        arr[0] = arr[i];
        arr[i] = tmp;
        proof {
            assert(arr@ == a0.update(0, a0[i as int]).update(i as int, a0[0]));
            assert forall|k: int| 0 < k < i implies #[trigger] heap_at(arr@, i as int, k) by {
                assert(heap_at(a0, i + 1, k));
            }
        }
        let ghost a1 = arr@;
        if i > 0 {
            sift_down(arr, 0, i);
        }
        proof {
            if i == 0 {
                assert(is_heap_from(arr@, 0, 0));
            }
            assert forall|a: int, b: int| 0 <= a < i && i <= b < len implies arr@[a] <= arr@[b] by {
                assert(value_in_range(a1, 0, i as int, arr@[a]));
                let j = choose|j: int| 0 <= j < i && a1[j] == arr@[a];
                assert(a1[j] == a0[j] || j == 0);
                assert(a0[j] <= a0[0]);
            }
        }
    }
}
/// The number of elements of `s` that are at most `v`.
pub open spec fn count_le(s: Seq<usize>, v: int) -> nat
    decreases s.len(),
{
    if s.len() == 0 {
        0
    } else {
        count_le(s.drop_last(), v) + (if s.last() <= v { 1nat } else { 0nat })
    }
}

/// The number of elements of `s` equal to `v`.
pub open spec fn occurrences(s: Seq<usize>, v: int) -> nat
    decreases s.len(),
{
    if s.len() == 0 {
        0
    } else {
        occurrences(s.drop_last(), v) + (if s.last() == v { 1nat } else { 0nat })
    }
}

/// Counting up to one element more.
proof fn lemma_take_step(s: Seq<usize>, i: int, v: int)
    requires
        0 <= i < s.len(),
    ensures
        count_le(s.take(i + 1), v) == count_le(s.take(i), v) + (if s[i] <= v { 1nat } else { 0nat }),
        occurrences(s.take(i + 1), v) == occurrences(s.take(i), v) + (if s[i] == v { 1nat } else { 0nat }),
{
    assert(s.take(i + 1).drop_last() =~= s.take(i));
}

/// The elements at most `v` are those at most `v - 1` and those equal to `v`.
proof fn lemma_count_le_split(s: Seq<usize>, v: int)
    ensures
        count_le(s, v) == count_le(s, v - 1) + occurrences(s, v),
    decreases s.len(),
{
    if s.len() > 0 {
        lemma_count_le_split(s.drop_last(), v);
    }
}

/// Counting below a greater bound counts no fewer elements, and never more than
/// all of them.
proof fn lemma_count_le_mono(s: Seq<usize>, v1: int, v2: int)
    requires
        v1 <= v2,
    ensures
        count_le(s, v1) <= count_le(s, v2),
        count_le(s, v2) <= s.len(),
    decreases s.len(),
{
    if s.len() > 0 {
        lemma_count_le_mono(s.drop_last(), v1, v2);
    }
}

/// Of elements that all lie in `[lo, hi]`, none is below `lo` and all are at
/// most `hi`.
proof fn lemma_count_le_range(s: Seq<usize>, lo: int, hi: int)
    requires
        forall|i: int| 0 <= i < s.len() ==> lo <= #[trigger] s[i] <= hi,
    ensures
        count_le(s, lo - 1) == 0,
        count_le(s, hi) == s.len(),
    decreases s.len(),
{
    if s.len() > 0 {
        lemma_count_le_range(s.drop_last(), lo, hi);
    }
}

/// A prefix holds no more occurrences of a value than the whole.
proof fn lemma_occurrences_prefix(s: Seq<usize>, i: int, v: int)
    requires
        0 <= i <= s.len(),
    ensures
        occurrences(s.take(i), v) <= occurrences(s, v),
    decreases s.len() - i,
{
    if i < s.len() {
        lemma_take_step(s, i, v);
        lemma_occurrences_prefix(s, i + 1, v);
    } else {
        assert(s.take(i) =~= s);
    }
}

/// Each position below the number of elements at most `v` lies in the block of
/// some value `u` from `lo` to `v`: at least as many elements rank below `u`,
/// fewer rank at most `u`.
proof fn lemma_block_cover(s: Seq<usize>, lo: int, v: int, p: int)
    requires
        count_le(s, lo - 1) == 0,
        lo - 1 <= v,
        0 <= p < count_le(s, v),
    ensures
        exists|u: int| lo <= u <= v && count_le(s, u - 1) <= p < #[trigger] count_le(s, u),
    decreases v - lo,
{
    if p < count_le(s, v - 1) {
        lemma_block_cover(s, lo, v - 1, p);
        let u = choose|u: int| lo <= u <= v - 1 && count_le(s, u - 1) <= p < #[trigger] count_le(s, u);
        assert(lo <= u <= v && count_le(s, u - 1) <= p < count_le(s, u));
    } else {
        assert(count_le(s, v - 1) <= p < count_le(s, v));
    }
}

/// Counting the positions below `k` of a sequence in which `v` fills exactly
/// the positions `[a, b)`.
proof fn lemma_occurrences_block(r: Seq<usize>, v: int, a: int, b: int, k: int)
    requires
        0 <= a <= b <= r.len(),
        0 <= k <= r.len(),
        forall|p: int| 0 <= p < r.len() ==> ((#[trigger] r[p] == v) <==> a <= p < b),
    ensures
        occurrences(r.take(k), v) == (if k <= a { 0 } else if k <= b { k - a } else { b - a }),
    decreases k,
{
    if k > 0 {
        lemma_occurrences_block(r, v, a, b, k - 1);
        lemma_take_step(r, k - 1, v);
    } else {
        assert(r.take(0) =~= Seq::<usize>::empty());
    }
}

/// A sequence holding at each position `p` the value with at most `p` elements
/// of `s` below it and more than `p` at most it holds each value as often as
/// `s` does.
pub proof fn law_order_statistics_permute(s: Seq<usize>, r: Seq<usize>, v: int)
    requires
        r.len() == s.len(),
        forall|p: int| #![trigger r[p]] 0 <= p < r.len() ==> count_le(s, r[p] - 1) <= p < count_le(s, r[p] as int),
    ensures
        occurrences(r, v) == occurrences(s, v),
{
    let a = count_le(s, v - 1) as int;
    let b = count_le(s, v) as int;
    lemma_count_le_mono(s, v - 1, v);
    lemma_count_le_split(s, v);
    assert forall|p: int| 0 <= p < r.len() implies ((#[trigger] r[p] == v) <==> a <= p < b) by {
        let u = r[p] as int;
        if u < v {
            lemma_count_le_mono(s, u, v - 1);
        } else if u > v {
            lemma_count_le_mono(s, v, u - 1);
        }
    }
    lemma_occurrences_block(r, v, a, b, r.len() as int);
    assert(r.take(r.len() as int) =~= r);
}

/// Sorts `origin`, whose elements all lie in `value_scope = (low, high)`, by
/// counting the occurrences of each value: the element at position `p` comes out
/// as the value `v` with at most `p` elements below it and more than `p` at most
/// it. Gives back `origin`.
pub fn counting_sort(origin: &mut Vec<usize>, value_scope: (usize, usize)) -> (r: &mut Vec<usize>)
    requires
        value_scope.0 <= value_scope.1 < usize::MAX,
        forall|i: int| 0 <= i < old(origin)@.len() ==> value_scope.0 <= #[trigger] old(origin)@[i] <= value_scope.1,
    ensures
        r@.len() == old(origin)@.len(),
        forall|p: int| #![trigger r@[p]] 0 <= p < r@.len() ==> count_le(old(origin)@, r@[p] - 1) <= p < count_le(old(origin)@, r@[p] as int),
        forall|p: int, q: int| 0 <= p <= q < r@.len() ==> r@[p] <= r@[q],
        forall|v: int| occurrences(r@, v) == occurrences(old(origin)@, v),
        final(origin)@ == final(r)@,
{
    let (low, height) = value_scope;
    let ghost s = origin@;
    let n = origin.len();
    let width = height - low + 1;
    let mut cnt: Vec<usize> = vec![0; width];
    proof {
        lemma_count_le_range(s, low as int, height as int);
    }
    for i in 0..n
        invariant
            origin@ == s,
            n == s.len(),
            cnt.len() == width,
            width == height - low + 1,
            forall|i: int| 0 <= i < s.len() ==> low <= #[trigger] s[i] <= height,
            forall|w: int| 0 <= w < width ==> #[trigger] cnt@[w] == occurrences(s.take(i as int), low + w),
    {
        let w = origin[i] - low;
        proof {
            assert forall|w2: int| 0 <= w2 < width implies #[trigger] occurrences(s.take(i + 1), low + w2)
                == occurrences(s.take(i as int), low + w2) + (if w2 == w { 1nat } else { 0nat }) by {
                lemma_take_step(s, i as int, low + w2);
            }
            lemma_occurrences_prefix(s, i + 1, origin[i as int] as int);
            lemma_count_le_split(s, origin[i as int] as int);
            lemma_count_le_mono(s, origin[i as int] as int, height as int);
        }
        cnt.set(w, cnt[w] + 1);
    }
    proof {
        assert(s.take(n as int) =~= s);
        lemma_count_le_split(s, low as int);
    }
    for i in 1..width
        invariant
            origin@ == s,
            n == s.len(),
            cnt.len() == width,
            width == height - low + 1,
            forall|i: int| 0 <= i < s.len() ==> low <= #[trigger] s[i] <= height,
            count_le(s, low - 1) == 0,
            count_le(s, height as int) == n,
            forall|w: int| 0 <= w < i ==> #[trigger] cnt@[w] == count_le(s, low + w),
            forall|w: int| i <= w < width ==> #[trigger] cnt@[w] == occurrences(s, low + w),
    {
        proof {
            lemma_count_le_split(s, low + i);
            lemma_count_le_mono(s, low + i, height as int);
        }
        let c = cnt[i] + cnt[i - 1];
        cnt.set(i, c);
    }
    let old_origin = origin.clone();
    proof {
        assert(old_origin@ =~= s);
        assert(s.take(n as int) =~= s);
        assert forall|w: int| 0 <= w < width implies #[trigger] cnt@[w] == count_le(s, low + w - 1) + occurrences(s.take(n as int), low + w) by {
            lemma_count_le_split(s, low + w);
        }
    }
    let mut j = n;
    while j > 0
        invariant
            old_origin@ == s,
            origin@.len() == n,
            n == s.len(),
            j <= n,
            cnt.len() == width,
            width == height - low + 1,
            forall|i: int| 0 <= i < s.len() ==> low <= #[trigger] s[i] <= height,
            forall|w: int| 0 <= w < width ==> #[trigger] cnt@[w] == count_le(s, low + w - 1) + occurrences(s.take(j as int), low + w),
            forall|p: int, w: int| #![trigger origin@[p], cnt@[w]] 0 <= w < width && cnt@[w] <= p < count_le(s, low + w) ==> origin@[p] == low + w,
        decreases j,
    {
        j = j - 1;
        let x = old_origin[j];
        let w = x - low;
        let ghost before = origin@;
        let ghost cw = cnt@;
        proof {
            assert forall|w2: int| 0 <= w2 < width implies #[trigger] occurrences(s.take(j + 1), low + w2)
                == occurrences(s.take(j as int), low + w2) + (if w2 == w { 1nat } else { 0nat }) by {
                lemma_take_step(s, j as int, low + w2);
            }
            lemma_occurrences_prefix(s, j + 1, x as int);
            lemma_count_le_split(s, x as int);
            lemma_count_le_mono(s, x as int, height as int);
        }
        let pos = cnt[w] - 1;
        origin.set(pos, x);
        cnt.set(w, pos);
        proof {
            assert forall|p: int, w2: int| #![trigger origin@[p], cnt@[w2]] 0 <= w2 < width && cnt@[w2] <= p < count_le(s, low + w2) implies origin@[p] == low + w2 by {
                lemma_count_le_mono(s, low + w2, height as int);
                if w2 != w {
                    if w2 < w {
                        lemma_count_le_mono(s, low + w2, x - 1);
                    } else {
                        lemma_count_le_mono(s, x as int, low + w2 - 1);
                    }
                    assert(cw[w2] == cnt@[w2]);
                    assert(p != pos);
                    assert(before[p] == low + w2);
                } else if p != pos {
                    assert(cw[w2] <= p);
                    assert(before[p] == low + w2);
                }
            }
        }
    }
    proof {
        assert(s.take(0) =~= Seq::<usize>::empty());
        assert forall|p: int| #![trigger origin@[p]] 0 <= p < n implies count_le(s, origin@[p] - 1) <= p < count_le(s, origin@[p] as int) by {
            lemma_block_cover(s, low as int, height as int, p);
            let u = choose|u: int| low <= u <= height && count_le(s, u - 1) <= p < #[trigger] count_le(s, u);
            assert(cnt@[u - low] == count_le(s, low + (u - low) - 1) + occurrences(s.take(0), low + (u - low)));
            assert(origin@[p] == low + (u - low));
        }
        assert forall|p: int, q: int| 0 <= p <= q < n implies origin@[p] <= origin@[q] by {
            if origin@[p] > origin@[q] {
                lemma_count_le_mono(s, origin@[q] as int, origin@[p] - 1);
            }
        }
        assert forall|v: int| occurrences(origin@, v) == occurrences(s, v) by {
            law_order_statistics_permute(s, origin@, v);
        }
    }
    origin
}

} // verus!

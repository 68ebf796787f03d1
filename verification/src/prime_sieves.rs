//! Prime sieves. Each finite sieve returns the primes up to its bound in
//! increasing order.

use vstd::prelude::*;
use crate::bits::{bv_from_elem, bv_at, bv_set, bitvec_bits};
use crate::number::isqrt;
use crate::prime_spec::{
    is_prime, divides, is_prime_seq, has_small_divisor_below, lemma_divides_trans,
    lemma_no_multiple_between, lemma_prime_iff_no_small_divisor, lemma_mul_divides,
    lpf_of, lemma_lpf_of, lemma_lpf_of_product, lemma_composite_cofactor,
    is_least_prime_factor,
};

verus! {

/// The multiples of `i` at least `i * i` that lie below `k`.
pub open spec fn marked_below(i: int, j: int, k: int) -> bool {
    divides(i, j) && i * i <= j && j < k
}

/// Eratosthenes sieve: the primes up to `n`.
pub fn e_sieve(n: usize) -> (r: Vec<usize>)
    requires
        n < usize::MAX,
    ensures
        is_prime_seq(r@, 0, n as int),
{
    if n == 0 {
        return Vec::new();
    }
    let mut bits = bv_from_elem(n + 1, true);
    let root = isqrt(n);
    let mut i: usize = 2;
    while i <= root
        invariant
            2 <= i <= root + 1,
            root * root <= n < (root + 1) * (root + 1),
            n < usize::MAX,
            bitvec_bits(bits).len() == n + 1,
            forall|j: int| 2 <= j <= n ==> bitvec_bits(bits)[j] == !has_small_divisor_below(j, i as int),
        decreases root + 1 - i,
    {
        assert(i * i <= n && i <= n) by (nonlinear_arith)
            requires
                2 <= i <= root,
                root * root <= n,
        ;
        if bv_at(&bits, i) {
            let mut k: usize = i * i;
            proof {
                lemma_mul_divides(i as int, i as int);
            }
            loop
                invariant_except_break
                    forall|j: int| 2 <= j <= n ==> bitvec_bits(bits)[j] == (!has_small_divisor_below(j, i as int)
                        && !marked_below(i as int, j, k as int)),
                invariant
                    2 <= i <= root,
                    i * i <= k <= n,
                    k % i == 0,
                    bitvec_bits(bits).len() == n + 1,
                ensures
                    bitvec_bits(bits).len() == n + 1,
                    forall|j: int| 2 <= j <= n ==> bitvec_bits(bits)[j] == (!has_small_divisor_below(j, i as int)
                        && !(divides(i as int, j) && i * i <= j)),
                decreases n - k,
            {
                let ghost old_bits = bitvec_bits(bits);
                assert(forall|j: int| 2 <= j <= n ==> old_bits[j] == (!has_small_divisor_below(j, i as int)
                        && !marked_below(i as int, j, k as int)));
                bv_set(&mut bits, k, false);
                if n - k < i {
                    assert forall|j: int| 2 <= j <= n implies bitvec_bits(bits)[j] == (!has_small_divisor_below(j, i as int)
                        && !(divides(i as int, j) && i * i <= j)) by {
                        if j != k {
                            assert(bitvec_bits(bits)[j] == old_bits[j]);
                            assert(old_bits[j] == (!has_small_divisor_below(j, i as int)
                                && !marked_below(i as int, j, k as int)));
                        }
                        if j == k {
                            assert(divides(i as int, j));
                        }
                        if j > k && divides(i as int, j) {
                            lemma_no_multiple_between(i as int, k as int, j);
                        }
                    }
                    break;
                }
                proof {
                    assert((k + i) % (i as int) == 0) by {
                        lemma_mul_divides(i as int, 1);
                        vstd::arithmetic::div_mod::lemma_mod_adds(k as int, i as int, i as int);
                        vstd::arithmetic::div_mod::lemma_mod_self_0(i as int);
                    }
                    assert forall|j: int| 2 <= j <= n implies bitvec_bits(bits)[j] == (!has_small_divisor_below(j, i as int)
                        && !marked_below(i as int, j, k + i)) by {
                        if j != k {
                            assert(bitvec_bits(bits)[j] == old_bits[j]);
                        }
                        if k < j < k + i {
                            lemma_no_multiple_between(i as int, k as int, j);
                        }
                        if j == k {
                            assert(divides(i as int, j));
                        }
                    }
                }
                k = k + i;
            }
            assert forall|j: int| 2 <= j <= n implies bitvec_bits(bits)[j] == !has_small_divisor_below(j, i + 1) by {
                assert(bitvec_bits(bits)[j] == (!has_small_divisor_below(j, i as int)
                    && !(divides(i as int, j) && i * i <= j)));
                if has_small_divisor_below(j, i as int) {
                    let d = choose|d: int| 2 <= d < i && d * d <= j && #[trigger] divides(d, j);
                    assert(2 <= d < i + 1 && d * d <= j && divides(d, j));
                }
                if has_small_divisor_below(j, i + 1) && !has_small_divisor_below(j, i as int) {
                    let d = choose|d: int| 2 <= d < i + 1 && d * d <= j && #[trigger] divides(d, j);
                    assert(d == i);
                }
                if divides(i as int, j) && i * i <= j {
                    assert(2 <= i < i + 1 && i * i <= j && divides(i as int, j));
                }
            }
        } else {
            assert forall|j: int| 2 <= j <= n implies bitvec_bits(bits)[j] == !has_small_divisor_below(j, i + 1) by {
                assert(bitvec_bits(bits)[j] == !has_small_divisor_below(j, i as int));
                if has_small_divisor_below(j, i as int) {
                    let d = choose|d: int| 2 <= d < i && d * d <= j && #[trigger] divides(d, j);
                    assert(2 <= d < i + 1 && d * d <= j && divides(d, j));
                }
                if has_small_divisor_below(j, i + 1) && !has_small_divisor_below(j, i as int) {
                    let d = choose|d: int| 2 <= d < i + 1 && d * d <= j && #[trigger] divides(d, j);
                    assert(d == i);
                    assert(bitvec_bits(bits)[i as int] == false);
                    assert(has_small_divisor_below(i as int, i as int));
                    let e = choose|e: int| 2 <= e < i && e * e <= i && #[trigger] divides(e, i as int);
                    lemma_divides_trans(e, i as int, j);
                    assert(e * e <= j) by (nonlinear_arith)
                        requires
                            e * e <= i,
                            i * i <= j,
                            i >= 2,
                    ;
                    assert(2 <= e < i && e * e <= j && divides(e, j));
                }
            }
        }
        i = i + 1;
    }
    let mut res: Vec<usize> = Vec::new();
    let mut j: usize = 2;
    while j <= n
        invariant
            2 <= j <= n + 1,
            n < usize::MAX,
            root * root <= n < (root + 1) * (root + 1),
            bitvec_bits(bits).len() == n + 1,
            forall|x: int| 2 <= x <= n ==> bitvec_bits(bits)[x] == !has_small_divisor_below(x, root + 1),
            is_prime_seq(res@, 0, j - 1),
            forall|t: int| 0 <= t < res@.len() ==> res@[t] < j,
        decreases n + 1 - j,
    {
        proof {
            assert((j as int) < (root + 1) * (root + 1));
            lemma_prime_iff_no_small_divisor(j as int, root + 1);
        }
        let ghost old_res = res@;
        if bv_at(&bits, j) {
            res.push(j);
            proof {
                assert(old_res.push(j) == res@);
                assert forall|p: int| 0 < p <= j && is_prime(p) implies res@.contains(p as usize) by {
                    if p < j {
                        let t = choose|t: int| 0 <= t < old_res.len() && old_res[t] == p as usize;
                        assert(res@[t] == p as usize);
                    } else {
                        assert(res@[res@.len() - 1] == j);
                    }
                }
            }
        } else {
            proof {
                assert forall|p: int| 0 < p <= j && is_prime(p) implies res@.contains(p as usize) by {
                    if p == j {
                        assert(false);
                    }
                }
            }
        }
        j = j + 1;
    }
    res
}


/// Some element among the first `t` of `s` divides `m`.
pub open spec fn divided_by_one_of(s: Seq<usize>, t: int, m: int) -> bool {
    exists|u: int| 0 <= u < t && #[trigger] divides(s[u] as int, m)
}

/// What a segment sieve over `(l, l + delta]` asks of its list of primes: each is a
/// prime at most `l`, and every prime whose square reaches into the segment is there.
pub open spec fn segment_sieve_ready(pris: Seq<usize>, l: int, delta: int) -> bool {
    &&& forall|u: int| 0 <= u < pris.len() ==> is_prime(#[trigger] pris[u] as int) && pris[u] <= l
    &&& forall|q: int| is_prime(q) && q * q <= l + delta ==> pris.contains(q as usize)
}

/// Segmented Eratosthenes sieve: the primes in `(l, l + delta]`, found by striking
/// the multiples of the primes in `pris`.
pub fn e_seg_sieve_0(pris: &Vec<usize>, l: usize, delta: usize) -> (r: Vec<usize>)
    requires
        segment_sieve_ready(pris@, l as int, delta as int),
        l + delta < usize::MAX,
        l >= 1,
    ensures
        is_prime_seq(r@, l as int, l + delta),
{
    let mut seg = bv_from_elem(delta + 1, true);
    let mut t: usize = 0;
    while t < pris.len()
        invariant
            segment_sieve_ready(pris@, l as int, delta as int),
            l + delta < usize::MAX,
            t <= pris.len(),
            bitvec_bits(seg).len() == delta + 1,
            forall|x: int| 1 <= x <= delta ==> bitvec_bits(seg)[x] == !divided_by_one_of(pris@, t as int, l + x),
        decreases pris.len() - t,
    {
        let p = pris[t];
        assert(is_prime(pris@[t as int] as int));
        let start = p - l % p;
        proof {
            vstd::arithmetic::div_mod::lemma_fundamental_div_mod(l as int, p as int);
            let base = l - l % p;
            assert(base == p * (l as int / p as int));
            lemma_mul_divides(p as int, l as int / p as int);
            assert forall|x: int| 1 <= x < start implies !#[trigger] divides(p as int, l + x) by {
                lemma_no_multiple_between(p as int, base, l + x);
            }
            assert((l + start) as int == base + p);
            vstd::arithmetic::div_mod::lemma_mod_adds(base, p as int, p as int);
            vstd::arithmetic::div_mod::lemma_mod_self_0(p as int);
        }
        let mut i = start;
        while i <= delta
            invariant
                segment_sieve_ready(pris@, l as int, delta as int),
                l + delta < usize::MAX,
                t < pris.len(),
                p == pris@[t as int],
                is_prime(p as int),
                p <= l,
                1 <= i,
                i <= delta + p,
                (l + i) % (p as int) == 0,
                bitvec_bits(seg).len() == delta + 1,
                forall|x: int| 1 <= x <= delta ==> bitvec_bits(seg)[x] == (!divided_by_one_of(pris@, t as int, l + x)
                    && !(divides(p as int, l + x) && x < i)),
            decreases delta + p - i,
        {
            let ghost old_seg = bitvec_bits(seg);
            assert(forall|x: int| 1 <= x <= delta ==> old_seg[x] == (!divided_by_one_of(pris@, t as int, l + x)
                    && !(divides(p as int, l + x) && x < i)));
            bv_set(&mut seg, i, false);
            proof {
                assert(((l + i) + p) % (p as int) == 0) by {
                    vstd::arithmetic::div_mod::lemma_mod_adds((l + i) as int, p as int, p as int);
                    vstd::arithmetic::div_mod::lemma_mod_self_0(p as int);
                }
                assert forall|x: int| 1 <= x <= delta implies bitvec_bits(seg)[x] == (!divided_by_one_of(pris@, t as int, l + x)
                    && !(divides(p as int, l + x) && x < i + p)) by {
                    if x != i {
                        assert(bitvec_bits(seg)[x] == old_seg[x]);
                    }
                    if i < x < i + p {
                        lemma_no_multiple_between(p as int, (l + i) as int, l + x);
                    }
                    if x == i {
                        assert(divides(p as int, l + x));
                    }
                }
            }
            i = i + p;
        }
        proof {
            assert forall|x: int| 1 <= x <= delta implies bitvec_bits(seg)[x] == !divided_by_one_of(pris@, t + 1, l + x) by {
                assert(bitvec_bits(seg)[x] == (!divided_by_one_of(pris@, t as int, l + x)
                    && !(divides(p as int, l + x) && x < i)));
                if divided_by_one_of(pris@, t as int, l + x) {
                    let u = choose|u: int| 0 <= u < t && #[trigger] divides(pris@[u] as int, l + x);
                    assert(0 <= u < t + 1 && divides(pris@[u] as int, l + x));
                }
                if divided_by_one_of(pris@, t + 1, l + x) && !divided_by_one_of(pris@, t as int, l + x) {
                    let u = choose|u: int| 0 <= u < t + 1 && #[trigger] divides(pris@[u] as int, l + x);
                    assert(u == t);
                }
                if divides(p as int, l + x) {
                    assert(0 <= t < t + 1 && divides(pris@[t as int] as int, l + x));
                }
            }
        }
        t = t + 1;
    }
    let mut res: Vec<usize> = Vec::new();
    let mut x: usize = 1;
    while x <= delta
        invariant
            segment_sieve_ready(pris@, l as int, delta as int),
            l + delta < usize::MAX,
            l >= 1,
            1 <= x <= delta + 1,
            bitvec_bits(seg).len() == delta + 1,
            forall|y: int| 1 <= y <= delta ==> bitvec_bits(seg)[y] == !divided_by_one_of(pris@, pris@.len() as int, l + y),
            is_prime_seq(res@, l as int, l + x - 1),
        decreases delta + 1 - x,
    {
        let ghost m = l + x;
        proof {
            assert(bitvec_bits(seg)[x as int] == !divided_by_one_of(pris@, pris@.len() as int, m));
            if is_prime(m) {
                if divided_by_one_of(pris@, pris@.len() as int, m) {
                    let u = choose|u: int| 0 <= u < pris@.len() && #[trigger] divides(pris@[u] as int, m);
                    assert(is_prime(pris@[u] as int) && pris@[u] <= l);
                    assert(2 <= pris@[u] < m);
                }
            } else {
                if m >= 2 {
                    crate::prime_spec::lemma_composite_has_small_prime_factor(m);
                    let q = choose|q: int| is_prime(q) && q * q <= m && #[trigger] divides(q, m);
                    crate::prime_spec::lemma_divisor_le(q, m);
                    assert(pris@.contains(q as usize));
                    let u = choose|u: int| 0 <= u < pris@.len() && pris@[u] == q as usize;
                    assert(divides(pris@[u] as int, m));
                }
            }
        }
        if bv_at(&seg, x) {
            proof {
                if m < 2 {
                    assert(false);
                }
                crate::prime_spec::lemma_prime_seq_push(res@, l as int, m - 1, (l + x) as usize);
            }
            res.push(l + x);
        } else {
            proof {
                assert forall|q: int| l < q <= m && is_prime(q) implies res@.contains(q as usize) by {
                    assert(q != m);
                }
            }
        }
        x = x + 1;
    }
    res
}

/// A list of all primes up to `b` serves a segment sieve over `(l, l + delta]` when
/// `b <= l` and `(l + delta) < (b + 1)^2`.
pub proof fn lemma_segment_ready(pris: Seq<usize>, b: int, l: int, delta: int)
    requires
        is_prime_seq(pris, 0, b),
        0 <= b <= l,
        l + delta < (b + 1) * (b + 1),
    ensures
        segment_sieve_ready(pris, l, delta),
{
    assert forall|q: int| is_prime(q) && q * q <= l + delta implies pris.contains(q as usize) by {
        if q > b {
            assert(q * q >= (b + 1) * (b + 1)) by (nonlinear_arith)
                requires
                    q >= b + 1,
                    b >= 0,
            ;
        }
    }
}

/// Segmented Eratosthenes sieve over blocks of width `isqrt(n)`: the primes up to `n`.
pub fn e_seg_sieve(n: usize) -> (r: Vec<usize>)
    requires
        n < usize::MAX,
    ensures
        is_prime_seq(r@, 0, n as int),
{
    if n == 0 {
        return Vec::new();
    }
    let delta = isqrt(n);
    assert(delta >= 1 && delta <= n) by (nonlinear_arith)
        requires
            delta * delta <= n < (delta + 1) * (delta + 1),
            n >= 1,
    ;
    let pris = e_sieve(delta);
    let mut acc: Vec<usize> = Vec::new();
    let mut l = delta;
    while l + 1 <= n
        invariant
            1 <= delta <= l <= n,
            n < usize::MAX,
            delta * delta <= n < (delta + 1) * (delta + 1),
            is_prime_seq(pris@, 0, delta as int),
            is_prime_seq(acc@, delta as int, l as int),
        decreases n - l,
    {
        let d = if delta < n - l { delta } else { n - l };
        proof {
            lemma_segment_ready(pris@, delta as int, l as int, d as int);
        }
        let seg = e_seg_sieve_0(&pris, l, d);
        proof {
            crate::prime_spec::lemma_prime_seq_concat(acc@, seg@, delta as int, l as int, l + d);
        }
        let mut seg = seg;
        acc.append(&mut seg);
        if d < delta {
            l = n;
        } else {
            l = l + delta;
        }
    }
    proof {
        crate::prime_spec::lemma_prime_seq_concat(pris@, acc@, 0, delta as int, n as int);
    }
    let mut res = pris;
    res.append(&mut acc);
    res
}

/// How many parts the range above `isqrt(n)` is cut into.
pub const USED_CPU_CORES_NUM: usize = 3;

/// The parts `(lo, hi]` that the range `(delta, n]` is cut into, one for each of
/// `USED_CPU_CORES_NUM` workers: equal runs of whole segments of `delta`, the last
/// ones clipped at `n`.
pub fn subtask_ranges(n: usize, delta: usize) -> (r: Vec<(usize, usize)>)
    requires
        1 <= delta <= n <= usize::MAX / 4,
    ensures
        r@.len() == USED_CPU_CORES_NUM,
        r@[0].0 == delta,
        r@[r@.len() - 1].1 == n,
        forall|c: int| 0 <= c < r@.len() - 1 ==> #[trigger] r@[c].1 == r@[c + 1].0,
        forall|c: int| 0 <= c < r@.len() ==> delta <= #[trigger] r@[c].0 <= r@[c].1 <= n,
{
    let m = n / delta;
    proof {
        crate::number::lemma_le_div_iff_mul_le(1, delta as int, n as int);
        crate::number::lemma_le_div_iff_mul_le(m + 1, delta as int, n as int);
    }
    let mut k_dekta = (m - 1) / USED_CPU_CORES_NUM;
    proof {
        crate::number::lemma_le_div_iff_mul_le(m as int, delta as int, n as int);
        crate::number::lemma_le_div_iff_mul_le(k_dekta as int, delta as int, n as int);
        assert(k_dekta <= m);
        assert(k_dekta * delta <= m * delta) by (nonlinear_arith)
            requires
                k_dekta <= m,
        ;
    }
    if delta + k_dekta * delta < n {
        proof {
            // one more segment each still fits: k_dekta + 1 <= m
            assert(3 * k_dekta >= m - 3);
            assert(k_dekta + 1 <= m) by (nonlinear_arith)
                requires
                    delta + k_dekta * delta < n,
                    m * delta <= n,
                    n < (m + 1) * delta,
                    k_dekta <= m,
                    delta >= 1,
            ;
            crate::number::lemma_le_div_iff_mul_le((k_dekta + 1) as int, delta as int, n as int);
        }
        k_dekta = k_dekta + 1;
    }
    let step = k_dekta * delta;
    proof {
        assert(delta + 3 * step >= n) by (nonlinear_arith)
            requires
                step == k_dekta * delta,
                3 * ((m - 1) / 3) >= m - 3,
                k_dekta == (m - 1) / 3 || (k_dekta == (m - 1) / 3 + 1),
                k_dekta == (m - 1) / 3 ==> delta + k_dekta * delta >= n,
                n < (m + 1) * delta,
                delta >= 1,
                m >= 1,
        ;
    }
    let mut r: Vec<(usize, usize)> = Vec::new();
    let mut l = delta;
    let mut c: usize = 0;
    while c < USED_CPU_CORES_NUM
        invariant
            1 <= delta <= n <= usize::MAX / 4,
            step <= n,
            delta + 3 * step >= n,
            r@.len() == c,
            c <= USED_CPU_CORES_NUM,
            l == delta + c * step,
            c > 0 ==> r@[c - 1].1 == (if l < n { l } else { n }),
            c > 0 ==> r@[0].0 == delta,
            forall|cc: int| 0 <= cc < c - 1 ==> #[trigger] r@[cc].1 == r@[cc + 1].0,
            forall|cc: int| 0 <= cc < c ==> delta <= #[trigger] r@[cc].0 <= r@[cc].1 <= n,
        decreases USED_CPU_CORES_NUM - c,
    {
        proof {
            assert(l + step <= 4 * n) by (nonlinear_arith)
                requires
                    l == delta + c * step,
                    c < 3,
                    step <= n,
                    delta <= n,
            ;
            assert(delta + (c + 1) * step == l + step) by (nonlinear_arith)
                requires
                    l == delta + c * step,
            ;
        }
        let lo = if l < n { l } else { n };
        let hi = if l + step < n { l + step } else { n };
        r.push((lo, hi));
        l = l + step;
        c = c + 1;
    }
    r
}

/// The primes of `(l0, l1]`, found segment by segment of width `delta` by
/// `e_seg_sieve_0` with the primes up to `delta`.
pub fn e_seg_subtask(pris: &Vec<usize>, l0: usize, l1: usize, delta: usize) -> (r: Vec<usize>)
    requires
        is_prime_seq(pris@, 0, delta as int),
        1 <= delta <= l0,
        l1 < (delta + 1) * (delta + 1),
        l1 <= usize::MAX / 4,
        delta <= usize::MAX / 4,
    ensures
        is_prime_seq(r@, l0 as int, l1 as int),
{
    let mut ans: Vec<usize> = Vec::new();
    let mut l = l0;
    while l <= l1
        invariant
            is_prime_seq(pris@, 0, delta as int),
            1 <= delta <= l0 <= l,
            l1 < (delta + 1) * (delta + 1),
            l1 <= usize::MAX / 4,
            delta <= usize::MAX / 4,
            l == l0 || l <= l1 + delta,
            is_prime_seq(ans@, l0 as int, if l <= l1 { l as int } else { l1 as int }),
        decreases l1 + delta - l,
    {
        let actual = if delta < l1 - l { delta } else { l1 - l };
        proof {
            lemma_segment_ready(pris@, delta as int, l as int, actual as int);
        }
        let mut seg = e_seg_sieve_0(pris, l, actual);
        proof {
            crate::prime_spec::lemma_prime_seq_concat(ans@, seg@, l0 as int, l as int, l + actual);
        }
        ans.append(&mut seg);
        l = l + delta;
    }
    ans
}

/// The segmented Eratosthenes sieve with the range above `isqrt(n)` cut by
/// `subtask_ranges` into parts that are sieved apart and joined in order.
pub fn e_seg_sieve_p(n: usize) -> (r: Vec<usize>)
    requires
        n <= usize::MAX / 4,
    ensures
        is_prime_seq(r@, 0, n as int),
{
    if n == 0 {
        return Vec::new();
    }
    let delta = isqrt(n);
    assert(delta >= 1 && delta <= n) by (nonlinear_arith)
        requires
            delta * delta <= n < (delta + 1) * (delta + 1),
            n >= 1,
    ;
    let pris = e_sieve(delta);
    let ranges = subtask_ranges(n, delta);
    let mut ans: Vec<usize> = Vec::new();
    let mut c: usize = 0;
    while c < ranges.len()
        invariant
            is_prime_seq(pris@, 0, delta as int),
            1 <= delta <= n <= usize::MAX / 4,
            delta * delta <= n < (delta + 1) * (delta + 1),
            ranges@.len() == USED_CPU_CORES_NUM,
            ranges@[0].0 == delta,
            ranges@[ranges@.len() - 1].1 == n,
            forall|cc: int| 0 <= cc < ranges@.len() - 1 ==> #[trigger] ranges@[cc].1 == ranges@[cc + 1].0,
            forall|cc: int| 0 <= cc < ranges@.len() ==> delta <= #[trigger] ranges@[cc].0 <= ranges@[cc].1 <= n,
            c <= ranges@.len(),
            is_prime_seq(ans@, delta as int, if c == 0 { delta as int } else { ranges@[c - 1].1 as int }),
        decreases ranges@.len() - c,
    {
        let (lo, hi) = ranges[c];
        let mut part = e_seg_subtask(&pris, lo, hi, delta);
        proof {
            if c > 0 {
                assert(ranges@[c - 1].1 == ranges@[c as int].0);
            }
            crate::prime_spec::lemma_prime_seq_concat(ans@, part@, delta as int, lo as int, hi as int);
        }
        ans.append(&mut part);
        c = c + 1;
    }
    proof {
        crate::prime_spec::lemma_prime_seq_concat(pris@, ans@, 0, delta as int, n as int);
    }
    let mut res = pris;
    res.append(&mut ans);
    res
}

/// Whether `p * p < n`, computed without overflow.
pub fn square_lt(p: usize, n: usize) -> (r: bool)
    requires
        p >= 1,
    ensures
        r == (p * p < n),
{
    proof {
        crate::number::lemma_le_div_iff_square_le(p as int, n as int);
    }
    if p <= n / p {
        p * p < n
    } else {
        false
    }
}

/// Grows `pris`, the primes up to its last element, to the primes up to `n`, one
/// segment `(p, p * p]` at a time, where `p` is the last prime found.
pub fn e_inc_sieve_reentrant(pris: &mut Vec<usize>, n: usize)
    requires
        old(pris)@.len() > 0,
        is_prime_seq(old(pris)@, 0, old(pris)@.last() as int),
        old(pris)@.last() <= n,
        n < usize::MAX,
    ensures
        is_prime_seq(final(pris)@, 0, n as int),
{
    let mut p = pris[pris.len() - 1];
    proof {
        assert(is_prime(pris@[pris@.len() - 1] as int));
    }
    while square_lt(p, n)
        invariant
            pris@.len() > 0,
            2 <= p <= n,
            n < usize::MAX,
            is_prime_seq(pris@, 0, p as int),
        decreases n - p,
    {
        proof {
            assert(p * (p - 1) + p == p * p) by (nonlinear_arith);
            assert((p * p) < (p + 1) * (p + 1)) by (nonlinear_arith) requires p >= 2;
            lemma_segment_ready(pris@, p as int, p as int, p * (p - 1));
        }
        let seg = e_seg_sieve_0(pris, p, p * (p - 1));
        proof {
            crate::prime_spec::lemma_prime_seq_concat(pris@, seg@, 0, p as int, p * p);
        }
        let mut seg = seg;
        pris.append(&mut seg);
        let last = pris[pris.len() - 1];
        // A prime always lies in (p, p * p] (Bertrand's postulate); the second arm
        // only keeps the loop's progress evident.
        if last > p {
            proof {
                assert(is_prime(pris@[pris@.len() - 1] as int));
                assert forall|q: int| 0 < q <= last && is_prime(q) implies pris@.contains(q as usize) by {}
                assert forall|i: int| 0 <= i < pris@.len() implies #[trigger] pris@[i] <= last by {
                    if i < pris@.len() - 1 {
                        assert(pris@[i] < pris@[pris@.len() - 1]);
                    }
                }
            }
            p = last;
        } else {
            assert(p < p * p) by (nonlinear_arith) requires p >= 2;
            p = p * p;
        }
    }
    proof {
        assert(n < (p + 1) * (p + 1)) by (nonlinear_arith) requires p * p >= n, p >= 2;
        lemma_segment_ready(pris@, p as int, p as int, (n - p) as int);
    }
    let rem = e_seg_sieve_0(pris, p, n - p);
    proof {
        crate::prime_spec::lemma_prime_seq_concat(pris@, rem@, 0, p as int, n as int);
    }
    let mut rem = rem;
    pris.append(&mut rem);
}

/// Incremental Eratosthenes sieve: the primes up to `n`.
pub fn e_inc_sieve(n: usize) -> (r: Vec<usize>)
    requires
        n < usize::MAX,
    ensures
        is_prime_seq(r@, 0, n as int),
{
    proof {
        crate::prime_spec::lemma_primes_upto_3();
    }
    if n <= 3 {
        if n == 3 {
            let r = vec![2, 3];
            assert(r@ == seq![2usize, 3usize]);
            return r;
        } else if n == 2 {
            let r = vec![2];
            assert(r@ == seq![2usize]);
            return r;
        } else {
            let r: Vec<usize> = Vec::new();
            assert forall|p: int| 0 < p <= n && is_prime(p) implies r@.contains(p as usize) by {}
            return r;
        }
    }
    let mut pris = vec![2, 3];
    assert(pris@ == seq![2usize, 3usize]);
    e_inc_sieve_reentrant(&mut pris, n);
    pris
}

/// The entry of the linear sieve's table for `j` once every cofactor below `bound`
/// has been processed: the least prime factor, or 0 where it is not known yet.
pub open spec fn lpf_table_entry(j: int, bound: int) -> int {
    if (is_prime(j) && j < bound) || (!is_prime(j) && j / lpf_of(j) < bound) {
        lpf_of(j)
    } else {
        0
    }
}

/// The entry for `j` while the cofactor `f` is processed and the primes
/// `pris[..u]` have been tried.
pub open spec fn lpf_inner_entry(j: int, f: int, pris: Seq<usize>, u: int) -> int {
    if !is_prime(j) && j / lpf_of(j) == f {
        if pris.subrange(0, u).contains(lpf_of(j) as usize) {
            lpf_of(j)
        } else {
            0
        }
    } else {
        lpf_table_entry(j, f + 1)
    }
}

/// The primes of a complete prime list lie at increasing positions: the element at
/// `u` is at most any element found at a later position.
pub proof fn lemma_prime_seq_index_order(s: Seq<usize>, lo: int, hi: int, a: int, b: int)
    requires
        is_prime_seq(s, lo, hi),
        0 <= a < s.len(),
        0 <= b < s.len(),
        s[a] <= s[b],
    ensures
        a <= b,
{
    if a > b {
        assert(s[b] < s[a]);
    }
}

/// Linear sieve: the primes up to `n` and the least prime factor of every number up
/// to `n` (0 for 0 and 1).
pub fn mairson_dual_sieve_factorization(n: usize) -> (r: (Vec<usize>, Vec<usize>))
    requires
        n < usize::MAX,
    ensures
        is_prime_seq(r.0@, 0, n as int),
        r.1@.len() == n + 1,
        forall|j: int| 0 <= j <= n ==> #[trigger] r.1@[j] == (if j >= 2 { lpf_of(j) } else { 0 }),
{
    let mut lpf: Vec<usize> = vec![0; n + 1];
    let mut pris: Vec<usize> = Vec::new();
    if n <= 1 {
        proof {
            assert forall|j: int| 0 <= j <= n implies #[trigger] lpf@[j] == (if j >= 2 { lpf_of(j) } else { 0 }) by {
                assert(lpf@[j] == 0);
            }
        }
        return (pris, lpf);
    }
    let half = n / 2;
    proof {
        assert forall|j: int| 2 <= j <= n implies #[trigger] lpf@[j] == lpf_table_entry(j, 2) by {
            assert(lpf@[j] == 0);
            lemma_lpf_of(j);
            if !is_prime(j) {
                lemma_composite_cofactor(j);
            }
        }
        assert(lpf@[0] == 0 && lpf@[1] == 0);
    }
    let mut f: usize = 2;
    while f <= half
        invariant
            2 <= f <= half + 1,
            half == n / 2,
            2 <= n < usize::MAX,
            lpf@.len() == n + 1,
            lpf@[0] == 0,
            lpf@[1] == 0,
            forall|j: int| 2 <= j <= n ==> #[trigger] lpf@[j] == lpf_table_entry(j, f as int),
            is_prime_seq(pris@, 0, f - 1),
        decreases half + 1 - f,
    {
        proof {
            lemma_lpf_of(f as int);
            assert(lpf@[f as int] == lpf_table_entry(f as int, f as int));
            if !is_prime(f as int) {
                lemma_composite_cofactor(f as int);
            }
        }
        if lpf[f] == 0 {
            proof {
                assert(is_prime(f as int));
                assert forall|q: int| f - 1 < q < f implies !is_prime(q) by {}
                crate::prime_spec::lemma_prime_seq_push(pris@, 0, f - 1, f);
                assert(lpf_of(f as int) == f) by {
                    assert(is_least_prime_factor(f as int, f as int)) by {
                        lemma_mul_divides(f as int, 1);
                    }
                }
            }
            lpf.set(f, f);
            pris.push(f);
        } else {
            proof {
                assert forall|q: int| 0 < q <= f && is_prime(q) implies pris@.contains(q as usize) by {
                    if q == f {
                        assert(false);
                    }
                }
            }
        }
        let lf = lpf[f];
        proof {
            assert(lf == lpf_of(f as int));
            assert(is_prime(lf as int));
            assert(lf <= f);
            assert(pris@.contains(lf));
            assert forall|j: int| 2 <= j <= n implies #[trigger] lpf@[j] == lpf_inner_entry(j, f as int, pris@, 0) by {
                if j == f {
                } else {
                    if !is_prime(j) {
                        lemma_lpf_of(j);
                    }
                }
            }
        }
        let mut u: usize = 0;
        loop
            invariant_except_break
                u <= pris@.len(),
                forall|t: int| 0 <= t < u ==> pris@[t] != lf,
                forall|j: int| 2 <= j <= n ==> #[trigger] lpf@[j] == lpf_inner_entry(j, f as int, pris@, u as int),
            invariant
                2 <= f <= half,
                half == n / 2,
                2 <= n < usize::MAX,
                lpf@.len() == n + 1,
                lpf@[0] == 0,
                lpf@[1] == 0,
                is_prime_seq(pris@, 0, f as int),
                lf == lpf_of(f as int),
                pris@.contains(lf),
            ensures
                lpf@.len() == n + 1,
                lpf@[0] == 0,
                lpf@[1] == 0,
                forall|j: int| 2 <= j <= n ==> #[trigger] lpf@[j] == lpf_table_entry(j, f + 1),
            decreases pris@.len() - u,
        {
            if u >= pris.len() {
                proof {
                    let k = choose|k: int| 0 <= k < pris@.len() && pris@[k] == lf;
                    assert(false);
                }
                break;
            }
            let p = pris[u];
            proof {
                let k = choose|k: int| 0 <= k < pris@.len() && pris@[k] == lf;
                if k < u {
                    assert(pris@[k] != lf);
                }
                if p > lf {
                    lemma_prime_seq_index_order(pris@, 0, f as int, u as int, k);
                }
                assert(p <= lf);
                assert(is_prime(p as int));
                lemma_lpf_of(f as int);
                crate::number::lemma_le_div_iff_mul_le(p as int, f as int, n as int);
            }
            if p > n / f {
                proof {
                    assert forall|j: int| 2 <= j <= n implies #[trigger] lpf@[j] == lpf_table_entry(j, f + 1) by {
                        assert(lpf@[j] == lpf_inner_entry(j, f as int, pris@, u as int));
                        if !is_prime(j) && j / lpf_of(j) == f {
                            lemma_composite_cofactor(j);
                            lemma_lpf_of(j);
                            let q = lpf_of(j);
                            assert(pris@.contains(q as usize));
                            let k = choose|k: int| 0 <= k < pris@.len() && pris@[k] == q as usize;
                            if k >= u {
                                if k > u {
                                    assert(pris@[u as int] < pris@[k]);
                                }
                                assert(q * f >= p * f) by (nonlinear_arith) requires q >= p, f >= 0;
                                assert(false);
                            }
                            assert(pris@.subrange(0, u as int)[k] == q as usize);
                        }
                    }
                }
                break;
            }
            let j0 = p * f;
            proof {
                assert(j0 <= n);
                assert forall|q: int| 2 <= q < p implies !#[trigger] divides(q, f as int) by {}
                lemma_lpf_of_product(p as int, f as int);
                assert(p * f >= 4) by (nonlinear_arith) requires p >= 2, f >= 2;
                lemma_lpf_of(j0 as int);
                assert(lpf_of(j0 as int) == p);
                assert(!is_prime(j0 as int)) by {
                    lemma_mul_divides(p as int, f as int);
                    assert(divides(p as int, j0 as int));
                    assert(p < j0) by (nonlinear_arith) requires p >= 2, f >= 2, j0 == p * f;
                }
                assert(j0 as int / p as int == f) by {
                    vstd::arithmetic::div_mod::lemma_div_multiples_vanish(f as int, p as int);
                }
            }
            let ghost old_lpf = lpf@;
            lpf.set(j0, p);
            proof {
                assert forall|j: int| 2 <= j <= n implies #[trigger] lpf@[j] == lpf_inner_entry(j, f as int, pris@, u + 1) by {
                    assert(old_lpf[j] == lpf_inner_entry(j, f as int, pris@, u as int));
                    let sub0 = pris@.subrange(0, u as int);
                    let sub1 = pris@.subrange(0, u + 1);
                    assert(sub1 == sub0.push(p));
                    if !is_prime(j) && j / lpf_of(j) == f {
                        lemma_composite_cofactor(j);
                        if lpf_of(j) == p {
                            assert(j == j0);
                            assert(sub1[u as int] == p);
                        } else {
                            if sub1.contains(lpf_of(j) as usize) {
                                let t = choose|t: int| 0 <= t < sub1.len() && sub1[t] == lpf_of(j) as usize;
                                lemma_lpf_of(j);
                                assert(t < u);
                                assert(sub0[t] == lpf_of(j) as usize);
                            }
                            if sub0.contains(lpf_of(j) as usize) {
                                let t = choose|t: int| 0 <= t < sub0.len() && sub0[t] == lpf_of(j) as usize;
                                assert(sub1[t] == lpf_of(j) as usize);
                            }
                            assert(j != j0);
                        }
                    } else {
                        if j == j0 {
                            assert(false);
                        }
                    }
                }
            }
            if p == lf {
                proof {
                    assert forall|j: int| 2 <= j <= n implies #[trigger] lpf@[j] == lpf_table_entry(j, f + 1) by {
                        assert(lpf@[j] == lpf_inner_entry(j, f as int, pris@, u + 1));
                        if !is_prime(j) && j / lpf_of(j) == f {
                            lemma_composite_cofactor(j);
                            lemma_lpf_of(j);
                            let q = lpf_of(j);
                            // the least prime factor of f divides j, so q <= lf
                            lemma_lpf_of(f as int);
                            assert(divides(f as int, j)) by {
                                lemma_mul_divides(f as int, q);
                                assert(f * q == j) by (nonlinear_arith) requires q * f == j;
                            }
                            lemma_divides_trans(lf as int, f as int, j);
                            assert(q <= lf);
                            assert(pris@.contains(q as usize));
                            let k = choose|k: int| 0 <= k < pris@.len() && pris@[k] == q as usize;
                            if k > u {
                                assert(pris@[u as int] < pris@[k]);
                                assert(false);
                            }
                            assert(pris@.subrange(0, u + 1)[k] == q as usize);
                        }
                    }
                }
                break;
            }
            u = u + 1;
        }
        f = f + 1;
    }
    let mut i: usize = half + 1;
    proof {
        assert forall|j: int| 2 <= j < i implies #[trigger] lpf@[j] == lpf_of(j) by {
            assert(lpf@[j] == lpf_table_entry(j, half + 1));
            if !is_prime(j) {
                lemma_composite_cofactor(j);
            }
        }
    }
    while i <= n
        invariant
            half + 1 <= i <= n + 1,
            half == n / 2,
            2 <= n < usize::MAX,
            lpf@.len() == n + 1,
            lpf@[0] == 0,
            lpf@[1] == 0,
            forall|j: int| 2 <= j < i ==> #[trigger] lpf@[j] == lpf_of(j),
            forall|j: int| i <= j <= n ==> #[trigger] lpf@[j] == lpf_table_entry(j, half + 1),
            is_prime_seq(pris@, 0, i - 1),
        decreases n + 1 - i,
    {
        proof {
            lemma_lpf_of(i as int);
            if !is_prime(i as int) {
                lemma_composite_cofactor(i as int);
                vstd::arithmetic::div_mod::lemma_div_is_ordered_by_denominator(i as int, 2, lpf_of(i as int));
                vstd::arithmetic::div_mod::lemma_div_is_ordered(i as int, n as int, 2);
            }
            assert(lpf@[i as int] == lpf_table_entry(i as int, half + 1));
        }
        if lpf[i] == 0 {
            proof {
                assert(is_prime(i as int));
                assert forall|q: int| i - 1 < q < i implies !is_prime(q) by {}
                crate::prime_spec::lemma_prime_seq_push(pris@, 0, i - 1, i);
                assert(lpf_of(i as int) == i) by {
                    assert(is_least_prime_factor(i as int, i as int)) by {
                        lemma_mul_divides(i as int, 1);
                    }
                }
            }
            lpf.set(i, i);
            pris.push(i);
        } else {
            proof {
                assert forall|q: int| 0 < q <= i && is_prime(q) implies pris@.contains(q as usize) by {
                    if q == i {
                        assert(false);
                    }
                }
            }
        }
        i = i + 1;
    }
    (pris, lpf)
}

/// `j == c * p` for a prime `p <= c`.
pub open spec fn struck_by(j: int, c: int, p: int) -> bool {
    2 <= c && is_prime(p) && p <= c && c * p == j
}

/// `j` is a product `c * p` of a prime `p <= c` with `c < bound`.
pub open spec fn struck_below(j: int, bound: int) -> bool {
    exists|c: int, p: int| c < bound && #[trigger] struck_by(j, c, p)
}

/// A number `j >= 2` is struck by some cofactor below `bound` exactly when it is
/// composite, provided `bound` exceeds `j / 2`.
pub proof fn lemma_struck_iff_composite(j: int, bound: int)
    requires
        j >= 2,
        j / 2 < bound,
    ensures
        struck_below(j, bound) <==> !is_prime(j),
{
    if struck_below(j, bound) {
        let (c, p) = choose|c: int, p: int| c < bound && #[trigger] struck_by(j, c, p);
        lemma_mul_divides(p, c);
        assert(p < j) by (nonlinear_arith) requires p >= 2, c >= 2, c * p == j;
        assert(divides(p, j));
    }
    if !is_prime(j) {
        crate::prime_spec::lemma_composite_has_small_prime_factor(j);
        let q = choose|q: int| is_prime(q) && q * q <= j && #[trigger] divides(q, j);
        vstd::arithmetic::div_mod::lemma_fundamental_div_mod(j, q);
        let c = j / q;
        assert(q <= c) by (nonlinear_arith) requires q * q <= j, j == q * c + 0, q >= 2;
        assert(c * q == j) by (nonlinear_arith) requires j == q * c + 0;
        vstd::arithmetic::div_mod::lemma_div_is_ordered_by_denominator(j, 2, q);
        assert(struck_by(j, c, q));
    }
}

/// Mairson's dual sieve: the primes up to `n`, striking each product of a cofactor
/// `f <= n / 2` with the primes found so far.
pub fn mairson_dual_sieve(n: usize) -> (r: Vec<usize>)
    requires
        n < usize::MAX,
    ensures
        is_prime_seq(r@, 0, n as int),
{
    if n <= 1 {
        let r: Vec<usize> = Vec::new();
        assert forall|p: int| 0 < p <= n && is_prime(p) implies r@.contains(p as usize) by {}
        return r;
    }
    let mut bits = bv_from_elem(n + 1, true);
    let mut pris: Vec<usize> = Vec::new();
    let half = n / 2;
    let mut f: usize = 2;
    proof {
        assert forall|j: int| 2 <= j <= n implies bitvec_bits(bits)[j] == !struck_below(j, 2) by {
            if struck_below(j, 2) {
                let (c, p) = choose|c: int, p: int| c < 2 && #[trigger] struck_by(j, c, p);
            }
        }
    }
    while f <= half
        invariant
            2 <= f <= half + 1,
            half == n / 2,
            2 <= n < usize::MAX,
            bitvec_bits(bits).len() == n + 1,
            forall|j: int| 2 <= j <= n ==> bitvec_bits(bits)[j] == !struck_below(j, f as int),
            is_prime_seq(pris@, 0, f - 1),
        decreases half + 1 - f,
    {
        proof {
            vstd::arithmetic::div_mod::lemma_div_is_ordered(f as int, n as int, 2);
            assert((f as int) / 2 < f);
            lemma_struck_iff_composite(f as int, f as int);
            assert(bitvec_bits(bits)[f as int] == !struck_below(f as int, f as int));
        }
        if bv_at(&bits, f) {
            proof {
                assert forall|q: int| f - 1 < q < f implies !is_prime(q) by {}
                crate::prime_spec::lemma_prime_seq_push(pris@, 0, f - 1, f);
            }
            pris.push(f);
        } else {
            proof {
                assert forall|q: int| 0 < q <= f && is_prime(q) implies pris@.contains(q as usize) by {
                    if q == f {
                        assert(false);
                    }
                }
            }
        }
        let mut u: usize = 0;
        loop
            invariant_except_break
                forall|j: int| 2 <= j <= n ==> bitvec_bits(bits)[j] == (!struck_below(j, f as int)
                    && !(exists|t: int| 0 <= t < u && j == f * pris@[t])),
            invariant
                2 <= f <= half,
                half == n / 2,
                2 <= n < usize::MAX,
                bitvec_bits(bits).len() == n + 1,
                is_prime_seq(pris@, 0, f as int),
                u <= pris@.len(),
            ensures
                bitvec_bits(bits).len() == n + 1,
                forall|j: int| 2 <= j <= n ==> bitvec_bits(bits)[j] == !struck_below(j, f + 1),
            decreases pris@.len() - u,
        {
            if u >= pris.len() {
                proof {
                    assert forall|j: int| 2 <= j <= n implies bitvec_bits(bits)[j] == !struck_below(j, f + 1) by {
                        if struck_below(j, f + 1) && !struck_below(j, f as int) {
                            let (c, q) = choose|c: int, q: int| c < f + 1 && #[trigger] struck_by(j, c, q);
                            if c < f {
                                assert(struck_below(j, f as int));
                            }
                            assert(c == f);
                            let k = choose|k: int| 0 <= k < pris@.len() && pris@[k] == q as usize;
                            assert(j == f * pris@[k]);
                        }
                        if exists|t: int| 0 <= t < u && j == f * pris@[t] {
                            let t = choose|t: int| 0 <= t < u && j == f * pris@[t];
                            assert(f * pris@[t] == pris@[t] * f) by (nonlinear_arith);
                            assert(struck_by(j, f as int, pris@[t] as int));
                        }
                        if struck_below(j, f as int) {
                            let (c, q) = choose|c: int, q: int| c < f && #[trigger] struck_by(j, c, q);
                            assert(c < f + 1 && struck_by(j, c, q));
                        }
                    }
                }
                break;
            }
            let p = pris[u];
            proof {
                crate::number::lemma_le_div_iff_mul_le(p as int, f as int, n as int);
                assert(is_prime(p as int) && p <= f);
                assert(f * p == p * f) by (nonlinear_arith);
            }
            if p > n / f {
                proof {
                    assert forall|j: int| 2 <= j <= n implies bitvec_bits(bits)[j] == !struck_below(j, f + 1) by {
                        if struck_below(j, f + 1) && !struck_below(j, f as int) {
                            let (c, q) = choose|c: int, q: int| c < f + 1 && #[trigger] struck_by(j, c, q);
                            if c < f {
                                assert(struck_below(j, f as int));
                            }
                            assert(c == f);
                            let k = choose|k: int| 0 <= k < pris@.len() && pris@[k] == q as usize;
                            if k >= u {
                                if k > u {
                                    assert(pris@[u as int] < pris@[k]);
                                }
                                assert(f * q >= f * p) by (nonlinear_arith) requires q >= p, f >= 0;
                                assert(c * q == f * q);
                                assert(false);
                            }
                            assert(j == f * pris@[k]);
                        }
                        if exists|t: int| 0 <= t < u && j == f * pris@[t] {
                            let t = choose|t: int| 0 <= t < u && j == f * pris@[t];
                            assert(f * pris@[t] == pris@[t] * f) by (nonlinear_arith);
                            assert(struck_by(j, f as int, pris@[t] as int));
                        }
                        if struck_below(j, f as int) {
                            let (c, q) = choose|c: int, q: int| c < f && #[trigger] struck_by(j, c, q);
                            assert(c < f + 1 && struck_by(j, c, q));
                        }
                    }
                }
                break;
            }
            let j0 = p * f;
            let ghost old_bits = bitvec_bits(bits);
            assert(forall|j: int| 2 <= j <= n ==> old_bits[j] == (!struck_below(j, f as int)
                    && !(exists|t: int| 0 <= t < u && j == f * pris@[t])));
            assert(j0 >= 2) by (nonlinear_arith) requires p >= 2, f >= 2, j0 == p * f;
            bv_set(&mut bits, j0, false);
            proof {
                assert forall|j: int| 2 <= j <= n implies bitvec_bits(bits)[j] == (!struck_below(j, f as int)
                    && !(exists|t: int| 0 <= t < u + 1 && j == f * pris@[t])) by {
                    assert(f * p == p * f) by (nonlinear_arith);
                    if j != j0 {
                        assert(bitvec_bits(bits)[j] == old_bits[j]);
                        if exists|t: int| 0 <= t < u + 1 && j == f * pris@[t] {
                            let t = choose|t: int| 0 <= t < u + 1 && j == f * pris@[t];
                            assert(t != u);
                        }
                    } else {
                        assert(0 <= u < u + 1 && j == f * pris@[u as int]);
                    }
                    if exists|t: int| 0 <= t < u && j == f * pris@[t] {
                        let t = choose|t: int| 0 <= t < u && j == f * pris@[t];
                        assert(0 <= t < u + 1 && j == f * pris@[t]);
                    }
                }
            }
            u = u + 1;
        }
        f = f + 1;
    }
    let mut i: usize = half + 1;
    while i <= n
        invariant
            half + 1 <= i <= n + 1,
            half == n / 2,
            2 <= n < usize::MAX,
            bitvec_bits(bits).len() == n + 1,
            forall|j: int| 2 <= j <= n ==> bitvec_bits(bits)[j] == !struck_below(j, half + 1),
            is_prime_seq(pris@, 0, i - 1),
        decreases n + 1 - i,
    {
        proof {
            vstd::arithmetic::div_mod::lemma_div_is_ordered(i as int, n as int, 2);
            lemma_struck_iff_composite(i as int, half + 1);
        }
        if bv_at(&bits, i) {
            proof {
                assert forall|q: int| i - 1 < q < i implies !is_prime(q) by {}
                crate::prime_spec::lemma_prime_seq_push(pris@, 0, i - 1, i);
            }
            pris.push(i);
        } else {
            proof {
                assert forall|q: int| 0 < q <= i && is_prime(q) implies pris@.contains(q as usize) by {
                    if q == i {
                        assert(false);
                    }
                }
            }
        }
        i = i + 1;
    }
    pris
}

/// The segmented fixed-wheel sieve (SFWS): the primes up to `n`, in ascending
/// order, sieved segment by segment over the wheel of the first seven primes.
pub fn wheel_seg_sieve(n: usize) -> (r: Vec<usize>)
    requires
        n <= usize::MAX / 4,
    ensures
        is_prime_seq(r@, 0, n as int),
{
    crate::fixed_wheel::fixed_wheel_seg_sieve(n)
}
} // verus!

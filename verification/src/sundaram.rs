//! Sundaram's sieve: an odd number `2m + 1 > 1` is composite exactly when
//! `m = i + j + 2ij` for some `1 <= i <= j`, that is when it is the product of the
//! odd numbers `2i + 1` and `2j + 1`. Striking those `m` leaves, besides 2, the odd
//! primes.

use vstd::prelude::*;
use vstd::arithmetic::div_mod::lemma_fundamental_div_mod;
use crate::bits::{bv_from_elem, bv_at, bv_set, bitvec_bits};
use crate::number::isqrt;
use crate::prime_spec::{is_prime, divides, is_prime_seq, lemma_prime_seq_push, lemma_mul_divides};

verus! {

/// `2m + 1` is the product of two odd numbers, the smaller `2i + 1` with
/// `1 <= i <= hi`.
pub open spec fn odd_product(m: int, hi: int) -> bool {
    exists|i: int, j: int| 1 <= i <= hi && i <= j && #[trigger] (i + j + 2 * i * j) == m
}

/// An odd number `2m + 1`, `m >= 1`, is composite exactly when `m = i + j + 2ij`.
pub proof fn lemma_odd_composite(m: int)
    requires
        m >= 1,
    ensures
        odd_product(m, m) <==> !is_prime(2 * m + 1),
{
    if odd_product(m, m) {
        let (i, j) = choose|i: int, j: int| 1 <= i <= m && i <= j && #[trigger] (i + j + 2 * i * j) == m;
        assert(2 * m + 1 == (2 * i + 1) * (2 * j + 1)) by (nonlinear_arith)
            requires
                m == i + j + 2 * i * j,
        ;
        lemma_mul_divides(2 * i + 1, 2 * j + 1);
        assert(2 * i + 1 < 2 * m + 1) by (nonlinear_arith)
            requires
                m == i + j + 2 * i * j,
                i >= 1,
                j >= i,
        ;
        assert(divides(2 * i + 1, 2 * m + 1));
    }
    if !is_prime(2 * m + 1) {
        let c = 2 * m + 1;
        crate::prime_spec::lemma_composite_has_small_divisor(c);
        let d = choose|d: int| 2 <= d && d * d <= c && #[trigger] divides(d, c);
        lemma_fundamental_div_mod(c, d);
        let e = c / d;
        assert(c == d * e);
        // both factors are odd
        lemma_fundamental_div_mod(d, 2);
        lemma_fundamental_div_mod(e, 2);
        assert(d % 2 == 1 && e % 2 == 1) by {
            if d % 2 == 0 || e % 2 == 0 {
                let dd = d / 2;
                let ee = e / 2;
                if d % 2 == 0 {
                    assert(c == 2 * (dd * e)) by (nonlinear_arith)
                        requires
                            c == d * e,
                            d == 2 * dd,
                    ;
                } else {
                    assert(c == 2 * (d * ee)) by (nonlinear_arith)
                        requires
                            c == d * e,
                            e == 2 * ee,
                    ;
                }
                vstd::arithmetic::div_mod::lemma_mod_multiples_basic(if d % 2 == 0 { dd * e } else { d * ee }, 2);
                assert(false) by (nonlinear_arith)
                    requires
                        c == 2 * m + 1,
                        c % 2 == 0,
                ;
            }
        }
        let i = (d - 1) / 2;
        let j = (e - 1) / 2;
        assert(d <= e) by (nonlinear_arith)
            requires
                d * d <= c,
                c == d * e,
                d >= 2,
        ;
        assert(1 <= i <= j && i + j + 2 * i * j == m) by (nonlinear_arith)
            requires
                d == 2 * i + 1,
                e == 2 * j + 1,
                c == d * e,
                c == 2 * m + 1,
                2 <= d <= e,
        ;
        assert(i <= m);
    }
}

/// 2 and the odd numbers `2i + 1`, `1 <= i <= k`, whose slot in `bits` is set.
fn collect_odd(bits: &bit_vec::BitVec, k: usize) -> (r: Vec<usize>)
    requires
        bitvec_bits(*bits).len() == k + 1,
        k <= usize::MAX / 4,
        forall|m: int| 1 <= m <= k ==> #[trigger] bitvec_bits(*bits)[m] == is_prime(2 * m + 1),
    ensures
        is_prime_seq(r@, 0, 2 * k + 2),
{
    let mut out: Vec<usize> = Vec::new();
    out.push(2);
    proof {
        crate::prime_spec::lemma_primes_upto_3();
    }
    let mut i: usize = 1;
    while i <= k
        invariant
            bitvec_bits(*bits).len() == k + 1,
            k <= usize::MAX / 4,
            forall|m: int| 1 <= m <= k ==> #[trigger] bitvec_bits(*bits)[m] == is_prime(2 * m + 1),
            1 <= i <= k + 1,
            is_prime_seq(out@, 0, 2 * i),
        decreases k + 1 - i,
    {
        if bv_at(bits, i) {
            proof {
                lemma_prime_seq_push(out@, 0, 2 * i, (2 * i + 1) as usize);
            }
            out.push(2 * i + 1);
        } else {
            assert(!is_prime(2 * i + 1));
        }
        proof {
            // the even number 2i + 2 is not prime
            assert(divides(2, 2 * i + 2)) by {
                lemma_mul_divides(2, i + 1);
            }
            assert(!is_prime(2 * i + 2));
        }
        i = i + 1;
    }
    out
}

/// Sundaram's sieve: the primes up to `n`.
pub fn sundaram_sieve(n: usize) -> (r: Vec<usize>)
    requires
        n <= usize::MAX / 4,
    ensures
        is_prime_seq(r@, 0, n as int),
{
    if n <= 1 {
        return Vec::new();
    }
    let k = (n - 1) / 2;
    let mut bits = bv_from_elem(k + 1, true);
    let mut i: usize = 1;
    while i <= k
        invariant
            k == (n - 1) / 2,
            n <= usize::MAX / 4,
            1 <= i <= k + 1,
            bitvec_bits(bits).len() == k + 1,
            forall|m: int| 1 <= m <= k ==> #[trigger] bitvec_bits(bits)[m] == !odd_product(m, i - 1),
        decreases k + 1 - i,
    {
        let step = 2 * i + 1;
        let jmax = (k - i) / step;
        let mut j = i;
        // m = i + j + 2ij = i + j * (2i + 1) <= k exactly when j <= jmax
        while j <= jmax
            invariant
                k == (n - 1) / 2,
                n <= usize::MAX / 4,
                1 <= i <= k,
                step == 2 * i + 1,
                jmax == ((k - i) as usize) / step,
                i <= j,
                bitvec_bits(bits).len() == k + 1,
                forall|m: int| 1 <= m <= k ==> #[trigger] bitvec_bits(bits)[m]
                    == !(odd_product(m, i - 1) || exists|jj: int| i <= jj < j && #[trigger] (i + jj + 2 * i * jj) == m),
            decreases jmax + 1 - j,
        {
            proof {
                crate::number::lemma_le_div_iff_mul_le(j as int, step as int, (k - i) as int);
                assert(i + j + 2 * i * j == i + j * step) by (nonlinear_arith)
                    requires
                        step == 2 * i + 1,
                ;
            }
            let m = i + j * step;
            bv_set(&mut bits, m, false);
            proof {
                let bb = bitvec_bits(bits);
                assert forall|mm: int| 1 <= mm <= k implies #[trigger] bb[mm]
                    == !(odd_product(mm, i - 1) || exists|jj: int| i <= jj < j + 1 && #[trigger] (i + jj + 2 * i * jj) == mm) by {
                    if mm == m {
                        assert(i + j + 2 * i * j == mm);
                    }
                    if exists|jj: int| i <= jj < j + 1 && #[trigger] (i + jj + 2 * i * jj) == mm {
                        let jj = choose|jj: int| i <= jj < j + 1 && #[trigger] (i + jj + 2 * i * jj) == mm;
                        if jj < j {
                            assert(i <= jj < j && (i + jj + 2 * i * jj) == mm);
                        }
                    }
                }
            }
            j = j + 1;
        }
        proof {
            let bb = bitvec_bits(bits);
            assert forall|mm: int| 1 <= mm <= k implies #[trigger] bb[mm] == !odd_product(mm, i as int) by {
                if odd_product(mm, i as int) && !odd_product(mm, i - 1) {
                    let (ii, jj) = choose|ii: int, jj: int| 1 <= ii <= i && ii <= jj && #[trigger] (ii + jj + 2 * ii * jj) == mm;
                    if ii < i {
                        assert(odd_product(mm, i - 1));
                    }
                    assert(ii == i);
                    crate::number::lemma_le_div_iff_mul_le(jj, step as int, (k - i) as int);
                    assert(i + jj * step == mm) by (nonlinear_arith)
                        requires
                            step == 2 * i + 1,
                            i + jj + 2 * i * jj == mm,
                    ;
                    assert(i <= jj < j && (i + jj + 2 * i * jj) == mm);
                }
                if exists|jx: int| i <= jx < j && #[trigger] (i + jx + 2 * i * jx) == mm {
                    let jx = choose|jx: int| i <= jx < j && #[trigger] (i + jx + 2 * i * jx) == mm;
                    assert(1 <= i <= i && i <= jx && (i + jx + 2 * i * jx) == mm);
                }
                if odd_product(mm, i - 1) {
                    let (ii, jj) = choose|ii: int, jj: int| 1 <= ii <= i - 1 && ii <= jj && #[trigger] (ii + jj + 2 * ii * jj) == mm;
                    assert(1 <= ii <= i && ii <= jj && (ii + jj + 2 * ii * jj) == mm);
                }
            }
        }
        i = i + 1;
    }
    proof {
        let bb = bitvec_bits(bits);
        assert forall|m: int| 1 <= m <= k implies #[trigger] bb[m] == is_prime(2 * m + 1) by {
            lemma_odd_composite(m);
            if odd_product(m, m) {
                let (ii, jj) = choose|ii: int, jj: int| 1 <= ii <= m && ii <= jj && #[trigger] (ii + jj + 2 * ii * jj) == m;
                assert(ii <= k);
                assert(1 <= ii <= k && ii <= jj && (ii + jj + 2 * ii * jj) == m);
            }
            if odd_product(m, k as int) {
                let (ii, jj) = choose|ii: int, jj: int| 1 <= ii <= k && ii <= jj && #[trigger] (ii + jj + 2 * ii * jj) == m;
                assert(ii <= m) by (nonlinear_arith)
                    requires
                        ii + jj + 2 * ii * jj == m,
                        1 <= ii <= jj,
                ;
                assert(1 <= ii <= m && ii <= jj && (ii + jj + 2 * ii * jj) == m);
            }
        }
    }
    let r = collect_odd(&bits, k);
    proof {
        lemma_tail_bound(r@, k as int, n as int);
    }
    r
}

/// Sundaram's sieve by products of odd numbers: for each odd `a` from 3 up to
/// `isqrt(n)`, the products `a * b`, `b >= a` odd, up to `n` are struck.
pub fn sundaram_sieve_improved(n: usize) -> (r: Vec<usize>)
    requires
        n <= usize::MAX / 4,
    ensures
        is_prime_seq(r@, 0, n as int),
{
    if n <= 1 {
        return Vec::new();
    }
    let k: usize = (n - 1) / 2;
    let mut bits = bv_from_elem(k + 1, true);
    let root = isqrt(n);
    let mut odd1: usize = 3;
    proof {
        assert(1 <= root <= n) by (nonlinear_arith)
            requires
                root * root <= n < (root + 1) * (root + 1),
                n >= 2,
        ;
        assert forall|m: int| 1 <= m <= k implies #[trigger] bitvec_bits(bits)[m] == !odd_product(m, 0) by {}
    }
    while odd1 <= root
        invariant
            k == (n - 1) / 2,
            2 <= n <= usize::MAX / 4,
            root * root <= n < (root + 1) * (root + 1),
            1 <= root <= n,
            odd1 % 2 == 1,
            3 <= odd1 <= root + 2,
            bitvec_bits(bits).len() == k + 1,
            forall|m: int| 1 <= m <= k ==> #[trigger] bitvec_bits(bits)[m] == !odd_product(m, (odd1 - 3) / 2),
        decreases root + 2 - odd1,
    {
        let ghost i = (odd1 - 1) / 2;
        let mut odd2 = odd1;
        while odd2 <= n / odd1
            invariant
                k == (n - 1) / 2,
                2 <= n <= usize::MAX / 4,
                odd1 % 2 == 1,
                odd2 % 2 == 1,
                3 <= odd1 <= odd2,
                odd1 <= n,
                i == (odd1 - 1) / 2,
                bitvec_bits(bits).len() == k + 1,
                forall|m: int| 1 <= m <= k ==> #[trigger] bitvec_bits(bits)[m]
                    == !(odd_product(m, i - 1) || exists|jj: int| i <= jj < (odd2 - 1) / 2 && #[trigger] (i + jj + 2 * i * jj) == m),
            decreases n + 2 - odd2,
        {
            let ghost j = (odd2 - 1) / 2;
            proof {
                crate::number::lemma_le_div_iff_mul_le(odd2 as int, odd1 as int, n as int);
                assert(odd1 * odd2 == odd2 * odd1) by (nonlinear_arith);
                assert(odd1 * odd2 == 2 * (i + j + 2 * i * j) + 1) by (nonlinear_arith)
                    requires
                        odd1 == 2 * i + 1,
                        odd2 == 2 * j + 1,
                ;
                assert(odd2 <= n) by (nonlinear_arith)
                    requires
                        odd1 * odd2 <= n,
                        odd1 >= 3,
                ;
            }
            let m = (odd1 * odd2 - 1) / 2;
            proof {
                assert(m == i + j + 2 * i * j);
            }
            bv_set(&mut bits, m, false);
            proof {
                let bb = bitvec_bits(bits);
                assert forall|mm: int| 1 <= mm <= k implies #[trigger] bb[mm]
                    == !(odd_product(mm, i - 1) || exists|jj: int| i <= jj < (odd2 + 2 - 1) / 2 && #[trigger] (i + jj + 2 * i * jj) == mm) by {
                    if mm == m {
                        assert(i <= j < (odd2 + 2 - 1) / 2 && (i + j + 2 * i * j) == mm);
                    }
                    if exists|jj: int| i <= jj < (odd2 + 2 - 1) / 2 && #[trigger] (i + jj + 2 * i * jj) == mm {
                        let jj = choose|jj: int| i <= jj < (odd2 + 2 - 1) / 2 && #[trigger] (i + jj + 2 * i * jj) == mm;
                        if jj < j {
                            assert(i <= jj < (odd2 - 1) / 2 && (i + jj + 2 * i * jj) == mm);
                        }
                    }
                }
            }
            odd2 = odd2 + 2;
        }
        proof {
            let bb = bitvec_bits(bits);
            assert forall|mm: int| 1 <= mm <= k implies #[trigger] bb[mm] == !odd_product(mm, i) by {
                if odd_product(mm, i) && !odd_product(mm, i - 1) {
                    let (ii, jj) = choose|ii: int, jj: int| 1 <= ii <= i && ii <= jj && #[trigger] (ii + jj + 2 * ii * jj) == mm;
                    if ii < i {
                        assert(odd_product(mm, i - 1));
                    }
                    assert(ii == i);
                    // odd1 * (2 jj + 1) = 2 mm + 1 <= n, so the walk reached jj
                    assert(odd1 * (2 * jj + 1) == 2 * mm + 1) by (nonlinear_arith)
                        requires
                            odd1 == 2 * i + 1,
                            i + jj + 2 * i * jj == mm,
                    ;
                    crate::number::lemma_le_div_iff_mul_le(2 * jj + 1, odd1 as int, n as int);
                    assert((2 * jj + 1) * odd1 == odd1 * (2 * jj + 1)) by (nonlinear_arith);
                    assert(i <= jj < (odd2 - 1) / 2 && (i + jj + 2 * i * jj) == mm);
                }
                if exists|jx: int| i <= jx < (odd2 - 1) / 2 && #[trigger] (i + jx + 2 * i * jx) == mm {
                    let jx = choose|jx: int| i <= jx < (odd2 - 1) / 2 && #[trigger] (i + jx + 2 * i * jx) == mm;
                    assert(1 <= i <= i && i <= jx && (i + jx + 2 * i * jx) == mm);
                }
                if odd_product(mm, i - 1) {
                    let (ii, jj) = choose|ii: int, jj: int| 1 <= ii <= i - 1 && ii <= jj && #[trigger] (ii + jj + 2 * ii * jj) == mm;
                    assert(1 <= ii <= i && ii <= jj && (ii + jj + 2 * ii * jj) == mm);
                }
            }
            assert((odd1 + 2 - 3) / 2 == i);
        }
        odd1 = odd1 + 2;
    }
    proof {
        let bb = bitvec_bits(bits);
        assert forall|m: int| 1 <= m <= k implies #[trigger] bb[m] == is_prime(2 * m + 1) by {
            lemma_odd_composite(m);
            if odd_product(m, m) {
                let (ii, jj) = choose|ii: int, jj: int| 1 <= ii <= m && ii <= jj && #[trigger] (ii + jj + 2 * ii * jj) == m;
                // (2 ii + 1)^2 <= (2 ii + 1)(2 jj + 1) = 2m + 1 <= n, so 2 ii + 1 <= root
                assert((2 * ii + 1) * (2 * ii + 1) <= n) by (nonlinear_arith)
                    requires
                        ii + jj + 2 * ii * jj == m,
                        1 <= ii <= jj,
                        2 * m + 1 <= n,
                ;
                assert(2 * ii + 1 <= root) by (nonlinear_arith)
                    requires
                        (2 * ii + 1) * (2 * ii + 1) <= n,
                        n < (root + 1) * (root + 1),
                        root >= 0,
                ;
                assert(1 <= ii <= (odd1 - 3) / 2 && ii <= jj && (ii + jj + 2 * ii * jj) == m);
            }
            if odd_product(m, (odd1 - 3) / 2) {
                let (ii, jj) = choose|ii: int, jj: int| 1 <= ii <= (odd1 - 3) / 2 && ii <= jj && #[trigger] (ii + jj + 2 * ii * jj) == m;
                assert(ii <= m) by (nonlinear_arith)
                    requires
                        ii + jj + 2 * ii * jj == m,
                        1 <= ii <= jj,
                ;
                assert(1 <= ii <= m && ii <= jj && (ii + jj + 2 * ii * jj) == m);
            }
        }
    }
    let r = collect_odd(&bits, k);
    proof {
        lemma_tail_bound(r@, k as int, n as int);
    }
    r
}

/// The primes up to `2k + 2` are the primes up to `n` where `k = (n - 1) / 2`:
/// what lies between is the even `2k + 2` or nothing.
proof fn lemma_tail_bound(s: Seq<usize>, k: int, n: int)
    requires
        n >= 2,
        k == (n - 1) / 2,
        is_prime_seq(s, 0, 2 * k + 2),
    ensures
        is_prime_seq(s, 0, n),
{
    assert(2 * k + 1 <= n <= 2 * k + 2);
    if n < 2 * k + 2 {
        assert(k >= 1);
        assert(divides(2, 2 * k + 2)) by {
            lemma_mul_divides(2, k + 1);
        }
        assert(!is_prime(2 * k + 2));
    }
    assert forall|i: int| 0 <= i < s.len() implies 0 < #[trigger] s[i] <= n && is_prime(s[i] as int) by {
        assert(s[i] <= 2 * k + 2);
    }
}

} // verus!

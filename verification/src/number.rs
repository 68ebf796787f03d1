//! Integer helpers: square roots, perfect squares, the binary length of an
//! integer and a trial-division primality test.

use vstd::prelude::*;
use vstd::arithmetic::div_mod::lemma_fundamental_div_mod;
use vstd::arithmetic::power2::{pow2, lemma_pow2_unfold, lemma_pow2_pos};
use crate::prime_spec::{divides, is_prime, has_small_divisor_below, lemma_prime_iff_no_small_divisor, lemma_divides_trans};

verus! {

/// For `a >= 1`: `a <= n / a` exactly when `a * a <= n`.
pub proof fn lemma_le_div_iff_square_le(a: int, n: int)
    requires
        a >= 1,
        n >= 0,
    ensures
        (a <= n / a) <==> (a * a <= n),
{
    lemma_fundamental_div_mod(n, a);
    let q = n / a;
    let r = n % a;
    if a <= q {
        assert(a * a <= n) by (nonlinear_arith)
            requires
                a <= q,
                n == a * q + r,
                0 <= r,
                a >= 1,
        ;
    } else {
        assert(a * a > n) by (nonlinear_arith)
            requires
                a >= q + 1,
                n == a * q + r,
                r < a,
                a >= 1,
        ;
    }
}

/// For `b >= 1`: `a <= n / b` exactly when `a * b <= n`.
pub proof fn lemma_le_div_iff_mul_le(a: int, b: int, n: int)
    requires
        b >= 1,
        n >= 0,
    ensures
        (a <= n / b) <==> (a * b <= n),
{
    lemma_fundamental_div_mod(n, b);
    let q = n / b;
    let r = n % b;
    if a <= q {
        assert(a * b <= n) by (nonlinear_arith)
            requires
                a <= q,
                n == b * q + r,
                0 <= r,
                b >= 1,
        ;
    } else {
        assert(a * b > n) by (nonlinear_arith)
            requires
                a >= q + 1,
                n == b * q + r,
                r < b,
                b >= 1,
        ;
    }
}

/// The integer square root: the largest `r` with `r * r <= n`.
pub fn isqrt(n: usize) -> (r: usize)
    ensures
        r * r <= n,
        n < (r + 1) * (r + 1),
{
    let mut r: usize = 0;
    proof {
        lemma_le_div_iff_square_le(1, n as int);
    }
    while r + 1 <= n / (r + 1)
        invariant
            r * r <= n,
            r <= n,
            r < usize::MAX,
        decreases n - r,
    {
        proof {
            lemma_le_div_iff_square_le(r + 1, n as int);
            assert(r + 1 <= (r + 1) * (r + 1)) by (nonlinear_arith);
            assert(r + 1 < usize::MAX) by (nonlinear_arith)
                requires
                    (r + 1) * (r + 1) <= n,
                    n <= usize::MAX,
                    usize::MAX >= 3,
            ;
        }
        r = r + 1;
    }
    proof {
        lemma_le_div_iff_square_le(r + 1, n as int);
    }
    r
}

/// Whether `n` is the square of an integer.
pub fn is_perfect_square(n: usize) -> (r: bool)
    ensures
        r == exists|k: int| 0 <= k && #[trigger] (k * k) == n,
{
    let root = isqrt(n);
    proof {
        assert forall|k: int| 0 <= k && #[trigger] (k * k) == n implies k == root by {
            if k < root {
                assert(k * k < root * root) by (nonlinear_arith)
                    requires
                        0 <= k < root,
                ;
            } else if k > root {
                assert(k * k >= (root + 1) * (root + 1)) by (nonlinear_arith)
                    requires
                        k >= root + 1,
                        root >= 0,
                ;
            }
        }
    }
    root * root == n
}

/// The least `r` with `n <= r * r`.
pub fn isqrt_ceil(n: usize) -> (r: usize)
    ensures
        n <= r * r,
        r == 0 || (r - 1) * (r - 1) < n,
{
    let root = isqrt(n);
    if root * root < n {
        proof {
            assert(root + 1 <= n) by (nonlinear_arith)
                requires
                    root * root < n,
                    n < (root + 1) * (root + 1),
            ;
        }
        root + 1
    } else {
        proof {
            if root > 0 {
                assert((root - 1) * (root - 1) < root * root) by (nonlinear_arith)
                    requires
                        root >= 1,
                ;
            }
        }
        root
    }
}

/// The number of binary digits of `x > 0`: the `r` with `2^(r-1) <= x < 2^r`.
pub fn ilog2(x: usize) -> (r: u32)
    requires
        x > 0,
    ensures
        r >= 1,
        pow2((r - 1) as nat) <= x < pow2(r as nat),
{
    let mut y = x;
    let mut i: u32 = 0;
    proof {
        vstd::arithmetic::power2::lemma2_to64();
    }
    while y > 0
        invariant
            x > 0,
            i <= 64,
            y * pow2(i as nat) <= x < (y + 1) * pow2(i as nat),
            i > 0 || y == x,
            i > 0 ==> pow2((i - 1) as nat) <= x,
        decreases y,
    {
        proof {
            vstd::arithmetic::power2::lemma2_to64();
            lemma_pow2_unfold((i + 1) as nat);
            lemma_pow2_pos(i as nat);
            lemma_fundamental_div_mod(y as int, 2);
            assert(y >> 1usize == y / 2) by (bit_vector);
            let h = y / 2;
            assert(h * pow2((i + 1) as nat) <= x < (h + 1) * pow2((i + 1) as nat)) by (nonlinear_arith)
                requires
                    y * pow2(i as nat) <= x < (y + 1) * pow2(i as nat),
                    pow2((i + 1) as nat) == 2 * pow2(i as nat),
                    y == 2 * h + y % 2,
                    0 <= y % 2 <= 1,
            ;
            assert(pow2(i as nat) <= x) by (nonlinear_arith)
                requires
                    y * pow2(i as nat) <= x,
                    y >= 1,
            ;
            if i >= 64 {
                if i > 64 {
                    vstd::arithmetic::power2::lemma_pow2_strictly_increases(64, i as nat);
                }
                assert(x <= usize::MAX);
                assert(usize::MAX < 0x10000000000000000);
            }
        }
        y = y >> 1;
        i = i + 1;
    }
    proof {
        assert(x < pow2(i as nat)) by (nonlinear_arith)
            requires
                x < (y + 1) * pow2(i as nat),
                y == 0,
        ;
    }
    i
}

/// Whether `n` is prime, by trial division by 2, 3 and the numbers `6k - 1` and
/// `6k + 1` up to `isqrt(n)`.
pub fn is_prime_trial(n: usize) -> (r: bool)
    ensures
        r == is_prime(n as int),
{
    if n <= 1 {
        return false;
    }
    if n == 2 || n == 3 {
        proof {
            crate::prime_spec::lemma_primes_upto_3();
        }
        return true;
    }
    if n % 2 == 0 || n % 3 == 0 {
        proof {
            if n % 2 == 0 {
                assert(divides(2, n as int));
            } else {
                assert(divides(3, n as int));
            }
        }
        return false;
    }
    let root = isqrt(n);
    proof {
        assert(root + 8 <= usize::MAX) by (nonlinear_arith)
            requires
                root * root <= usize::MAX,
                usize::MAX >= 0xffff_ffff,
        ;
    }
    let mut i: usize = 5;
    proof {
        assert forall|d: int| 2 <= d < 5 implies !#[trigger] divides(d, n as int) by {
            if d == 4 {
                lemma_not_divides_through(2, 4, n as int);
            }
        }
    }
    while i <= root
        invariant
            n >= 5,
            n % 2 != 0,
            n % 3 != 0,
            root * root <= n < (root + 1) * (root + 1),
            root + 8 <= usize::MAX,
            i <= root + 6,
            i % 6 == 5,
            forall|d: int| 2 <= d < i ==> !#[trigger] divides(d, n as int),
        decreases root + 6 - i,
    {
        if n % i == 0 || n % (i + 2) == 0 {
            proof {
                let d = if n % i == 0 { i as int } else { i + 2 };
                assert(divides(d, n as int));
                assert(d < n) by (nonlinear_arith)
                    requires
                        d <= root + 2,
                        5 <= i <= root,
                        root * root <= n,
                ;
                assert(2 <= d < n);
                assert(!is_prime(n as int));
            }
            return false;
        }
        proof {
            assert forall|d: int| 2 <= d < i + 6 implies !#[trigger] divides(d, n as int) by {
                if d >= i && d != i && d != i + 2 {
                    // the others of i .. i + 6 are multiples of 2 or of 3
                    if (d - i) % 2 == 1 {
                        assert(d % 2 == 0);
                        lemma_not_divides_through(2, d, n as int);
                    } else {
                        assert(d == i + 4);
                        assert(d % 3 == 0);
                        lemma_not_divides_through(3, d, n as int);
                    }
                }
            }
        }
        i = i + 6;
    }
    proof {
        assert(!has_small_divisor_below(n as int, root + 1));
        lemma_prime_iff_no_small_divisor(n as int, root + 1);
    }
    true
}

/// If `k` divides `d` but not `n`, then `d` does not divide `n`.
proof fn lemma_not_divides_through(k: int, d: int, n: int)
    requires
        k >= 1,
        d >= 1,
        d % k == 0,
        n % k != 0,
    ensures
        !divides(d, n),
{
    if divides(d, n) {
        assert(divides(k, d));
        lemma_divides_trans(k, d, n);
    }
}

/// The decimal digits of `x`, most significant first, without leading zeros
/// (`0` is written as one digit).
pub open spec fn decimal_digits(x: nat) -> Seq<char>
    decreases x,
{
    if x < 10 {
        seq![(48 + x) as char]
    } else {
        decimal_digits(x / 10).push((48 + x % 10) as char)
    }
}

} // verus!

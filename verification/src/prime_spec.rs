//! Primality and divisibility, stated over mathematical integers, with the
//! lemmas that the sieves and the number functions rest on.

use vstd::prelude::*;
use vstd::arithmetic::div_mod::{
    lemma_fundamental_div_mod, lemma_mod_multiples_basic, lemma_small_mod,
    lemma_fundamental_div_mod_converse_mod,
};

verus! {

/// `d` divides `n`.
pub open spec fn divides(d: int, n: int) -> bool {
    d != 0 && n % d == 0
}

/// `n` is a prime number.
pub open spec fn is_prime(n: int) -> bool {
    n >= 2 && forall|d: int| 2 <= d < n ==> !#[trigger] divides(d, n)
}

/// `n` has a divisor `d` with `2 <= d < bound` and `d * d <= n`.
pub open spec fn has_small_divisor_below(n: int, bound: int) -> bool {
    exists|d: int| 2 <= d < bound && d * d <= n && #[trigger] divides(d, n)
}

/// `s` holds, in strictly increasing order, exactly the primes `p` with `lo < p <= hi`.
pub open spec fn is_prime_seq(s: Seq<usize>, lo: int, hi: int) -> bool {
    &&& forall|i: int, j: int| 0 <= i < j < s.len() ==> s[i] < s[j]
    &&& forall|i: int| 0 <= i < s.len() ==> lo < #[trigger] s[i] <= hi && is_prime(s[i] as int)
    &&& forall|p: int| lo < p <= hi && is_prime(p) ==> s.contains(p as usize)
}

/// The least prime factor of `n` is `p`.
pub open spec fn is_least_prime_factor(p: int, n: int) -> bool {
    &&& is_prime(p)
    &&& divides(p, n)
    &&& forall|q: int| 2 <= q < p ==> !#[trigger] divides(q, n)
}

/// The product of the elements of `s`.
pub open spec fn seq_product(s: Seq<usize>) -> int
    decreases s.len(),
{
    if s.len() == 0 {
        1
    } else {
        seq_product(s.drop_last()) * s.last()
    }
}

/// The multiples of `d` are closed under product with any integer.
pub proof fn lemma_mul_divides(d: int, k: int)
    requires
        d > 0,
    ensures
        divides(d, d * k),
        divides(d, k * d),
{
    lemma_mod_multiples_basic(k, d);
    assert(d * k == k * d) by (nonlinear_arith);
}

/// Divisibility is transitive.
pub proof fn lemma_divides_trans(a: int, b: int, c: int)
    requires
        a > 0,
        b > 0,
        divides(a, b),
        divides(b, c),
    ensures
        divides(a, c),
{
    lemma_fundamental_div_mod(b, a);
    lemma_fundamental_div_mod(c, b);
    let x = b / a;
    let y = c / b;
    assert(c == (x * y) * a) by (nonlinear_arith)
        requires
            b == a * x + 0,
            c == b * y + 0,
    ;
    lemma_mod_multiples_basic(x * y, a);
}

/// No multiple of `d` lies strictly between two consecutive multiples.
pub proof fn lemma_no_multiple_between(d: int, k: int, j: int)
    requires
        d > 0,
        k % d == 0,
        k < j < k + d,
    ensures
        !divides(d, j),
{
    lemma_fundamental_div_mod(k, d);
    let q = k / d;
    let t = j - k;
    assert(j == q * d + t) by (nonlinear_arith)
        requires
            k == d * q + 0,
            t == j - k,
    ;
    lemma_fundamental_div_mod_converse_mod(j, d, q, t);
}

/// A divisor `d` of a positive `n` is at most `n`.
pub proof fn lemma_divisor_le(d: int, n: int)
    requires
        d > 0,
        n > 0,
        divides(d, n),
    ensures
        d <= n,
{
    lemma_fundamental_div_mod(n, d);
    let q = n / d;
    if q <= 0 {
        assert(d * q <= 0) by (nonlinear_arith)
            requires
                d > 0,
                q <= 0,
        ;
    } else {
        assert(d * q >= d) by (nonlinear_arith)
            requires
                d > 0,
                q >= 1,
        ;
    }
}

/// A number with a divisor `d`, `2 <= d`, `d * d <= n`, is not prime.
pub proof fn lemma_small_divisor_not_prime(d: int, n: int)
    requires
        2 <= d,
        d * d <= n,
        divides(d, n),
    ensures
        !is_prime(n),
{
    assert(d < n) by (nonlinear_arith)
        requires
            2 <= d,
            d * d <= n,
    ;
    assert(divides(d, n));
}

/// A composite `n >= 2` has a divisor `d >= 2` with `d * d <= n`.
pub proof fn lemma_composite_has_small_divisor(n: int)
    requires
        n >= 2,
        !is_prime(n),
    ensures
        exists|d: int| 2 <= d && d * d <= n && #[trigger] divides(d, n),
{
    let d = choose|d: int| 2 <= d < n && #[trigger] divides(d, n);
    lemma_fundamental_div_mod(n, d);
    let e = n / d;
    assert(n == d * e);
    if d * d <= n {
        assert(divides(d, n));
    } else {
        assert(e >= 2 && e * e <= n) by (nonlinear_arith)
            requires
                n == d * e,
                d * d > n,
                2 <= d < n,
        ;
        lemma_mul_divides(e, d);
        assert(e * d == n) by (nonlinear_arith)
            requires
                n == d * e,
        ;
        assert(divides(e, n));
    }
}

/// `n >= 2` is prime exactly when it has no divisor `d >= 2` with `d * d <= n`.
pub proof fn lemma_prime_iff_no_small_divisor(n: int, bound: int)
    requires
        n >= 2,
        n < bound * bound,
        bound >= 0,
    ensures
        is_prime(n) <==> !has_small_divisor_below(n, bound),
{
    if is_prime(n) {
        if has_small_divisor_below(n, bound) {
            let d = choose|d: int| 2 <= d < bound && d * d <= n && #[trigger] divides(d, n);
            lemma_small_divisor_not_prime(d, n);
        }
    } else {
        lemma_composite_has_small_divisor(n);
        let d = choose|d: int| 2 <= d && d * d <= n && #[trigger] divides(d, n);
        if d >= bound {
            assert(d * d >= bound * bound) by (nonlinear_arith)
                requires
                    d >= bound,
                    bound >= 0,
            ;
        }
        assert(2 <= d < bound && d * d <= n && divides(d, n));
    }
}

/// Every `n >= 2` has a prime divisor; the least divisor `>= 2` is one.
pub proof fn lemma_least_divisor_is_prime(n: int, d: int)
    requires
        n >= 2,
        2 <= d <= n,
        divides(d, n),
        forall|q: int| 2 <= q < d ==> !#[trigger] divides(q, n),
    ensures
        is_prime(d),
{
    assert forall|q: int| 2 <= q < d implies !#[trigger] divides(q, d) by {
        if divides(q, d) {
            lemma_divides_trans(q, d, n);
        }
    }
}

/// A divisor `k >= 2` of `n >= 2` bounds a least divisor `>= 2`, which is prime.
pub proof fn lemma_least_prime_factor_below(n: int, k: int)
    requires
        n >= 2,
        2 <= k <= n,
        divides(k, n),
    ensures
        exists|p: int| p <= k && #[trigger] is_least_prime_factor(p, n),
    decreases k,
{
    if exists|q: int| 2 <= q < k && #[trigger] divides(q, n) {
        let q = choose|q: int| 2 <= q < k && #[trigger] divides(q, n);
        lemma_least_prime_factor_below(n, q);
    } else {
        lemma_least_divisor_is_prime(n, k);
        assert(is_least_prime_factor(k, n));
    }
}

/// Every `n >= 2` has a least prime factor.
pub proof fn lemma_has_least_prime_factor(n: int)
    requires
        n >= 2,
    ensures
        exists|p: int| #[trigger] is_least_prime_factor(p, n),
{
    lemma_mod_multiples_basic(1, n);
    assert(divides(n, n));
    lemma_least_prime_factor_below(n, n);
}


/// A composite `n >= 2` has a prime factor `q` with `q * q <= n`.
pub proof fn lemma_composite_has_small_prime_factor(n: int)
    requires
        n >= 2,
        !is_prime(n),
    ensures
        exists|q: int| is_prime(q) && q * q <= n && #[trigger] divides(q, n),
{
    lemma_composite_has_small_divisor(n);
    let d = choose|d: int| 2 <= d && d * d <= n && #[trigger] divides(d, n);
    lemma_has_least_prime_factor(d);
    let q = choose|q: int| #[trigger] is_least_prime_factor(q, d);
    lemma_divisor_le(q, d);
    lemma_divides_trans(q, d, n);
    assert(q * q <= d * d) by (nonlinear_arith)
        requires
            2 <= q <= d,
    ;
    assert(is_prime(q) && q * q <= n && divides(q, n));
}

/// Joining the primes of `(lo, mid]` and of `(mid, hi]` gives the primes of `(lo, hi]`.
pub proof fn lemma_prime_seq_concat(a: Seq<usize>, b: Seq<usize>, lo: int, mid: int, hi: int)
    requires
        is_prime_seq(a, lo, mid),
        is_prime_seq(b, mid, hi),
        lo <= mid <= hi,
    ensures
        is_prime_seq(a + b, lo, hi),
{
    let c = a + b;
    assert forall|i: int, j: int| 0 <= i < j < c.len() implies c[i] < c[j] by {
        if j < a.len() {
        } else if i >= a.len() {
            assert(c[i] == b[i - a.len()]);
            assert(c[j] == b[j - a.len()]);
        } else {
            assert(c[i] == a[i]);
            assert(c[j] == b[j - a.len()]);
        }
    }
    assert forall|i: int| 0 <= i < c.len() implies lo < #[trigger] c[i] <= hi && is_prime(c[i] as int) by {
        if i < a.len() {
            assert(c[i] == a[i]);
        } else {
            assert(c[i] == b[i - a.len()]);
        }
    }
    assert forall|p: int| lo < p <= hi && is_prime(p) implies c.contains(p as usize) by {
        if p <= mid {
            let i = choose|i: int| 0 <= i < a.len() && a[i] == p as usize;
            assert(c[i] == a[i]);
        } else {
            let i = choose|i: int| 0 <= i < b.len() && b[i] == p as usize;
            assert(c[i + a.len()] == b[i]);
        }
    }
}

/// Appending a prime `p` above `mid` extends the primes of `(lo, mid]` to `(lo, p]`
/// when no prime lies in `(mid, p)`.
pub proof fn lemma_prime_seq_push(a: Seq<usize>, lo: int, mid: int, p: usize)
    requires
        is_prime_seq(a, lo, mid),
        lo <= mid < p,
        is_prime(p as int),
        forall|q: int| mid < q < p ==> !is_prime(q),
    ensures
        is_prime_seq(a.push(p), lo, p as int),
{
    let c = a.push(p);
    assert forall|i: int| 0 <= i < c.len() implies lo < #[trigger] c[i] <= p && is_prime(c[i] as int) by {
        if i < a.len() {
            assert(c[i] == a[i]);
        }
    }
    assert forall|p2: int| lo < p2 <= p && is_prime(p2) implies c.contains(p2 as usize) by {
        if p2 <= mid {
            let i = choose|i: int| 0 <= i < a.len() && a[i] == p2 as usize;
            assert(c[i] == a[i]);
        } else {
            assert(c[a.len() as int] == p);
        }
    }
}

/// The primes up to 3 are 2 and 3.
pub proof fn lemma_primes_upto_3()
    ensures
        is_prime(2),
        is_prime(3),
        is_prime_seq(seq![2usize, 3usize], 0, 3),
        is_prime_seq(seq![2usize], 0, 2),
        is_prime_seq(Seq::<usize>::empty(), 0, 1),
{
    assert(!divides(2, 3));
    assert forall|d: int| 2 <= d < 3 implies !#[trigger] divides(d, 3) by {
        assert(d == 2);
    }
    let s = seq![2usize, 3usize];
    assert(s[0] == 2usize);
    assert(s[1] == 3usize);
    assert forall|p: int| 0 < p <= 3 && is_prime(p) implies s.contains(p as usize) by {
        if p == 2 {
            assert(s[0] == 2usize);
        } else {
            assert(p == 3);
            assert(s[1] == 3usize);
        }
    }
    let t = seq![2usize];
    assert forall|p: int| 0 < p <= 2 && is_prime(p) implies t.contains(p as usize) by {
        assert(t[0] == 2usize);
    }
}


/// The greatest common divisor, by Euclid's recurrence.
pub open spec fn gcd(a: nat, b: nat) -> nat
    decreases b,
{
    if b == 0 {
        a
    } else {
        gcd(b, a % b)
    }
}

/// `gcd(a, b)` divides both `a` and `b`, and is positive unless both are zero.
pub proof fn lemma_gcd_divides(a: nat, b: nat)
    ensures
        (a > 0 || b > 0) ==> gcd(a, b) > 0,
        gcd(a, b) > 0 ==> divides(gcd(a, b) as int, a as int) && divides(gcd(a, b) as int, b as int),
    decreases b,
{
    if b == 0 {
        if a > 0 {
            lemma_mod_multiples_basic(1, a as int);
            lemma_small_mod(0, a);
        }
    } else {
        lemma_gcd_divides(b, a % b);
        let g = gcd(a, b);
        lemma_small_mod(0, b);
        if g > 0 {
            lemma_fundamental_div_mod(a as int, b as int);
            let q = a as int / b as int;
            let r = (a % b) as int;
            // a == b * q + r, and g divides b and r
            lemma_fundamental_div_mod(b as int, g as int);
            lemma_fundamental_div_mod(r, g as int);
            let x = b as int / g as int;
            let y = r / g as int;
            assert(a == (x * q + y) * g) by (nonlinear_arith)
                requires
                    a == b * q + r,
                    b == g * x + 0,
                    r == g * y + 0,
            ;
            lemma_mod_multiples_basic(x * q + y, g as int);
        }
    }
}

/// The integer combination `a * x + b * y`.
pub open spec fn lin_comb(a: int, x: int, b: int, y: int) -> int {
    a * x + b * y
}

/// Bezout's identity: `gcd(a, b)` is an integer combination of `a` and `b`.
pub proof fn lemma_bezout(a: nat, b: nat)
    ensures
        exists|x: int, y: int| #[trigger] lin_comb(a as int, x, b as int, y) == gcd(a, b),
    decreases b,
{
    if b == 0 {
        assert(lin_comb(a as int, 1, b as int, 0) == gcd(a, b));
    } else {
        lemma_bezout(b, a % b);
        let (x, y) = choose|x: int, y: int| #[trigger] lin_comb(b as int, x, (a % b) as int, y) == gcd(b, a % b);
        lemma_fundamental_div_mod(a as int, b as int);
        let q = a as int / b as int;
        assert(lin_comb(a as int, y, b as int, x - q * y) == gcd(a, b)) by (nonlinear_arith)
            requires
                b * x + (a % b) * y == gcd(b, a % b),
                a == b * q + a % b,
                gcd(a, b) == gcd(b, a % b),
        ;
    }
}

/// Euclid's lemma: a prime that divides a product divides one of its factors.
pub proof fn lemma_euclid(p: int, a: int, b: int)
    requires
        is_prime(p),
        a >= 0,
        b >= 0,
        divides(p, a * b),
    ensures
        divides(p, a) || divides(p, b),
{
    if !divides(p, a) {
        let g = gcd(p as nat, a as nat);
        lemma_gcd_divides(p as nat, a as nat);
        lemma_divisor_le(g as int, p);
        if g != 1 {
            assert(2 <= g < p ==> !divides(g as int, p));
            if g == p {
                assert(divides(p, a));
            }
            assert(false);
        }
        lemma_bezout(p as nat, a as nat);
        let (x, y) = choose|x: int, y: int| #[trigger] lin_comb(p, x, a, y) == gcd(p as nat, a as nat);
        lemma_fundamental_div_mod(a * b, p);
        let k = (a * b) / p;
        assert(b == (b * x + k * y) * p) by (nonlinear_arith)
            requires
                lin_comb(p, x, a, y) == 1,
                a * b == p * k + 0,
        ;
        lemma_mod_multiples_basic(b * x + k * y, p);
    }
}


/// The least prime factor of `n >= 2`.
pub open spec fn lpf_of(n: int) -> int {
    choose|p: int| is_least_prime_factor(p, n)
}

/// `lpf_of` is the least prime factor, which is unique.
pub proof fn lemma_lpf_of(n: int)
    requires
        n >= 2,
    ensures
        is_least_prime_factor(lpf_of(n), n),
        forall|p: int| #[trigger] is_least_prime_factor(p, n) ==> p == lpf_of(n),
        2 <= lpf_of(n) <= n,
{
    lemma_has_least_prime_factor(n);
    let q = lpf_of(n);
    assert forall|p: int| #[trigger] is_least_prime_factor(p, n) implies p == q by {
        if p < q {
            assert(!divides(p, n));
        }
        if q < p {
            assert(!divides(q, n));
        }
    }
    lemma_divisor_le(q, n);
}

/// For a prime `p` below every divisor `>= 2` of `f`, `p` is the least prime factor of `p * f`.
pub proof fn lemma_lpf_of_product(p: int, f: int)
    requires
        is_prime(p),
        f >= 1,
        forall|q: int| 2 <= q < p ==> !#[trigger] divides(q, f),
    ensures
        is_least_prime_factor(p, p * f),
{
    lemma_mul_divides(p, f);
    assert forall|d: int| 2 <= d < p implies !#[trigger] divides(d, p * f) by {
        if divides(d, p * f) {
            lemma_has_least_prime_factor(d);
            let r = choose|r: int| #[trigger] is_least_prime_factor(r, d);
            lemma_divisor_le(r, d);
            assert(p * f > 0) by (nonlinear_arith) requires p >= 2, f >= 1;
            lemma_divides_trans(r, d, p * f);
            lemma_euclid(r, p, f);
        }
    }
}

/// The least prime factor of a composite `n` is at most its cofactor `n / lpf`,
/// and every divisor `>= 2` of that cofactor is at least the least prime factor.
pub proof fn lemma_composite_cofactor(n: int)
    requires
        n >= 2,
        !is_prime(n),
    ensures
        lpf_of(n) * (n / lpf_of(n)) == n,
        lpf_of(n) <= n / lpf_of(n) < n,
        forall|q: int| 2 <= q < lpf_of(n) ==> !#[trigger] divides(q, n / lpf_of(n)),
{
    lemma_lpf_of(n);
    let p = lpf_of(n);
    lemma_fundamental_div_mod(n, p);
    let c = n / p;
    lemma_composite_has_small_prime_factor(n);
    let q = choose|q: int| is_prime(q) && q * q <= n && #[trigger] divides(q, n);
    assert(p <= q);
    assert(p * p <= n) by (nonlinear_arith) requires p <= q, q * q <= n, p >= 2;
    assert(p <= c) by (nonlinear_arith) requires p * p <= n, n == p * c, p >= 2;
    assert(c < n) by (nonlinear_arith) requires n == p * c, p >= 2, c >= 1;
    assert forall|q2: int| 2 <= q2 < p implies !#[trigger] divides(q2, c) by {
        if divides(q2, c) {
            lemma_mul_divides(c, p);
            assert(c * p == n) by (nonlinear_arith) requires n == p * c;
            assert(divides(c, n));
            lemma_divides_trans(q2, c, n);
        }
    }
}

} // verus!

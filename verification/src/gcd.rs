//! Greatest common divisors by remainders, by subtraction, by search and by the
//! extended algorithm, and least common multiples; all agree with Euclid's
//! recurrence `gcd`.

use vstd::prelude::*;
use vstd::arithmetic::div_mod::{lemma_fundamental_div_mod, lemma_mod_multiples_basic, lemma_small_mod};
use crate::prime_spec::{divides, gcd, lin_comb, lemma_gcd_divides, lemma_bezout, lemma_divides_trans, lemma_mul_divides};

verus! {

/// A divisor of `a` and of `b` divides every integer combination of them.
proof fn lemma_divides_lin_comb(d: int, a: int, x: int, b: int, y: int)
    requires
        d > 0,
        divides(d, a),
        divides(d, b),
    ensures
        divides(d, a * x + b * y),
{
    lemma_fundamental_div_mod(a, d);
    lemma_fundamental_div_mod(b, d);
    let ka = a / d;
    let kb = b / d;
    assert(a * x + b * y == (ka * x + kb * y) * d) by (nonlinear_arith)
        requires
            a == d * ka + 0,
            b == d * kb + 0,
    ;
    lemma_mod_multiples_basic(ka * x + kb * y, d);
}

/// Every common divisor of `a` and `b` divides `gcd(a, b)`.
pub proof fn lemma_gcd_greatest(a: nat, b: nat, d: int)
    requires
        d > 0,
        divides(d, a as int),
        divides(d, b as int),
    ensures
        divides(d, gcd(a, b) as int),
{
    lemma_bezout(a, b);
    let (x, y) = choose|x: int, y: int| #[trigger] lin_comb(a as int, x, b as int, y) == gcd(a, b);
    lemma_divides_lin_comb(d, a as int, x, b as int, y);
}

/// Two pairs with the same common divisors have the same greatest common divisor.
pub proof fn lemma_gcd_same_divisors(a: nat, b: nat, c: nat, e: nat)
    requires
        forall|d: int| d > 0 ==> ((divides(d, a as int) && divides(d, b as int)) <==> (divides(d, c as int) && divides(d, e as int))),
    ensures
        gcd(a, b) == gcd(c, e),
{
    lemma_gcd_divides(a, b);
    lemma_gcd_divides(c, e);
    let g1 = gcd(a, b) as int;
    let g2 = gcd(c, e) as int;
    if g1 > 0 && g2 > 0 {
        lemma_gcd_greatest(c, e, g1);
        lemma_gcd_greatest(a, b, g2);
        crate::prime_spec::lemma_divisor_le(g1, g2);
        crate::prime_spec::lemma_divisor_le(g2, g1);
    } else if g1 == 0 && g2 > 0 {
        // a = b = 0, so every positive integer divides c and e
        assert(a == 0 && b == 0);
        let big = (c + e + 1) as int;
        lemma_mod_multiples_basic(0, big);
        assert(divides(big, a as int) && divides(big, b as int));
        if c > 0 {
            crate::prime_spec::lemma_divisor_le(big, c as int);
        }
        if e > 0 {
            crate::prime_spec::lemma_divisor_le(big, e as int);
        }
    } else if g2 == 0 && g1 > 0 {
        assert(c == 0 && e == 0);
        let big = (a + b + 1) as int;
        lemma_mod_multiples_basic(0, big);
        assert(divides(big, c as int) && divides(big, e as int));
        if a > 0 {
            crate::prime_spec::lemma_divisor_le(big, a as int);
        }
        if b > 0 {
            crate::prime_spec::lemma_divisor_le(big, b as int);
        }
    }
}

/// `gcd` does not depend on the order of its arguments.
pub proof fn lemma_gcd_comm(a: nat, b: nat)
    ensures
        gcd(a, b) == gcd(b, a),
{
    lemma_gcd_same_divisors(a, b, b, a);
}

/// Taking the smaller number from the larger keeps `gcd`.
pub proof fn lemma_gcd_sub(a: nat, b: nat)
    requires
        a >= b,
    ensures
        gcd(a, b) == gcd((a - b) as nat, b),
{
    assert forall|d: int| d > 0 implies ((divides(d, a as int) && divides(d, b as int))
        <==> (divides(d, a - b) && divides(d, b as int))) by {
        if divides(d, a as int) && divides(d, b as int) {
            lemma_divides_lin_comb(d, a as int, 1, b as int, -1);
            assert(a * 1 + b * -1 == a - b);
        }
        if divides(d, a - b) && divides(d, b as int) {
            lemma_divides_lin_comb(d, a - b, 1, b as int, 1);
            assert((a - b) * 1 + b * 1 == a);
        }
    }
    lemma_gcd_same_divisors(a, b, (a - b) as nat, b);
}

/// Halving an even number keeps its `gcd` with an odd one.
pub proof fn lemma_gcd_halve(a: nat, b: nat)
    requires
        a % 2 == 0,
        b % 2 == 1,
    ensures
        gcd(a, b) == gcd(a / 2, b),
{
    lemma_fundamental_div_mod(a as int, 2);
    let h = a / 2;
    assert forall|d: int| d > 0 implies ((divides(d, a as int) && divides(d, b as int))
        <==> (divides(d, h as int) && divides(d, b as int))) by {
        if divides(d, h as int) && divides(d, b as int) {
            lemma_divides_lin_comb(d, h as int, 2, b as int, 0);
            assert(h * 2 + b * 0 == a);
        }
        if divides(d, a as int) && divides(d, b as int) {
            // d is odd, since it divides the odd b
            lemma_fundamental_div_mod(b as int, d);
            lemma_fundamental_div_mod(a as int, d);
            let kb = b as int / d;
            let ka = a as int / d;
            assert(d % 2 == 1) by {
                lemma_fundamental_div_mod(d, 2);
                if d % 2 == 0 {
                    let dd = d / 2;
                    assert(b == 2 * (dd * kb)) by (nonlinear_arith)
                        requires
                            b == d * kb + 0,
                            d == 2 * dd + 0,
                    ;
                    lemma_mod_multiples_basic(dd * kb, 2);
                    assert((dd * kb) * 2 == 2 * (dd * kb)) by (nonlinear_arith);
                }
            }
            // ka is even, so d divides h
            assert(ka % 2 == 0) by {
                lemma_fundamental_div_mod(ka, 2);
                lemma_fundamental_div_mod(d, 2);
                if ka % 2 == 1 {
                    let kk = ka / 2;
                    let dd = d / 2;
                    assert(a == 2 * (2 * dd * kk + dd + kk) + 1) by (nonlinear_arith)
                        requires
                            a == d * ka + 0,
                            ka == 2 * kk + 1,
                            d == 2 * dd + 1,
                    ;
                    vstd::arithmetic::div_mod::lemma_fundamental_div_mod_converse_mod(a as int, 2, 2 * dd * kk + dd + kk, 1);
                }
            }
            let kh = ka / 2;
            lemma_fundamental_div_mod(ka, 2);
            assert(h == kh * d) by (nonlinear_arith)
                requires
                    a == d * ka + 0,
                    ka == 2 * kh + 0,
                    a == 2 * h + 0,
            ;
            lemma_mod_multiples_basic(kh, d);
        }
    }
    lemma_gcd_same_divisors(a, b, h, b);
}

/// Euclid's algorithm by remainders.
pub fn gcd_mod(m: u64, n: u64) -> (r: u64)
    ensures
        r == gcd(m as nat, n as nat),
{
    let ghost g = gcd(m as nat, n as nat);
    let mut m = m;
    let mut n = n;
    while n > 0
        invariant
            gcd(m as nat, n as nat) == g,
        decreases n,
    {
        let r = m % n;
        m = n;
        n = r;
    }
    m
}

/// `gcd(m, m) == m`.
proof fn lemma_gcd_self(m: nat)
    ensures
        gcd(m, m) == m,
{
    if m > 0 {
        vstd::arithmetic::div_mod::lemma_mod_self_0(m as int);
        assert(gcd(m, m) == gcd(m, m % m));
        assert(gcd(m, 0) == m);
    }
}

/// Euclid's algorithm by subtraction: the smaller number is taken from the larger
/// until the two are equal.
pub fn gcd_sub(m: u64, n: u64) -> (r: u64)
    ensures
        r == gcd(m as nat, n as nat),
{
    let ghost g = gcd(m as nat, n as nat);
    let mut m = m;
    let mut n = n;
    if m < n {
        proof {
            lemma_gcd_comm(m as nat, n as nat);
        }
        let t = m;
        m = n;
        n = t;
    }
    if n > 0 {
        while m != n
            invariant
                m >= n > 0,
                gcd(m as nat, n as nat) == g,
            decreases m + n,
        {
            proof {
                lemma_gcd_sub(m as nat, n as nat);
            }
            m = m - n;
            if m < n {
                proof {
                    lemma_gcd_comm(m as nat, n as nat);
                }
                let t = m;
                m = n;
                n = t;
            }
        }
        proof {
            lemma_gcd_self(m as nat);
        }
    }
    m
}

/// The greatest common divisor by search downwards from the smaller number (0
/// where `m` is 0).
pub fn gcd_brute(m: u64, n: u64) -> (r: u64)
    ensures
        r == (if m == 0 { 0 } else { gcd(m as nat, n as nat) }),
{
    let smaller = if m < n { m } else { n };
    if smaller == 0 {
        return m;
    }
    proof {
        lemma_gcd_divides(m as nat, n as nat);
        let g = gcd(m as nat, n as nat) as int;
        crate::prime_spec::lemma_divisor_le(g, smaller as int);
    }
    let mut i = smaller;
    while i >= 1
        invariant
            m > 0,
            n > 0,
            smaller <= m,
            smaller <= n,
            i <= smaller,
            1 <= gcd(m as nat, n as nat) <= smaller,
            divides(gcd(m as nat, n as nat) as int, m as int),
            divides(gcd(m as nat, n as nat) as int, n as int),
            gcd(m as nat, n as nat) <= i,
        decreases i,
    {
        if m % i == 0 && n % i == 0 {
            proof {
                lemma_gcd_greatest(m as nat, n as nat, i as int);
                crate::prime_spec::lemma_divisor_le(i as int, gcd(m as nat, n as nat) as int);
            }
            return i;
        }
        proof {
            if gcd(m as nat, n as nat) == i {
                assert(m % i == 0 && n % i == 0);
            }
        }
        i = i - 1;
    }
    m
}

/// Euclid's algorithm by remainders, after taking the factors 2 out of the larger
/// number where the smaller is odd.
pub fn gcd_rem(m: u64, n: u64) -> (r: u64)
    ensures
        r == gcd(m as nat, n as nat),
{
    let ghost g = gcd(m as nat, n as nat);
    let mut m = m;
    let mut n = n;
    if m < n {
        proof {
            lemma_gcd_comm(m as nat, n as nat);
        }
        let t = m;
        m = n;
        n = t;
    }
    if n % 2 != 0 {
        while m % 2 == 0
            invariant
                m >= 1,
                n % 2 == 1,
                gcd(m as nat, n as nat) == g,
            decreases m,
        {
            proof {
                lemma_gcd_halve(m as nat, n as nat);
                assert(m >> 1u64 == m / 2) by (bit_vector);
            }
            m = m >> 1;
        }
    }
    while n > 0
        invariant
            gcd(m as nat, n as nat) == g,
        decreases n,
    {
        let r = m % n;
        m = n;
        n = r;
    }
    m
}

/// The absolute value.
pub open spec fn abs(x: int) -> int {
    if x < 0 { -x } else { x }
}

/// The extended Euclid algorithm: `(g, x, y)` with `g = gcd(m, n)` and
/// `x * m + y * n == g`, the coefficients kept no larger than `m` and `n`.
pub fn ext_gcd(m: i64, n: i64) -> (r: (i64, i64, i64))
    requires
        m >= 0,
        n >= 0,
    ensures
        r.0 == gcd(m as nat, n as nat),
        r.1 * m + r.2 * n == r.0,
{
    let ghost g = gcd(m as nat, n as nat);
    let mut m1 = m;
    let mut n1 = n;
    let mut x: i64 = 1;
    let mut y: i64 = 0;
    let mut x1: i64 = 0;
    let mut y1: i64 = 1;
    while n1 > 0
        invariant
            m >= 0,
            n >= 0,
            m1 >= 0,
            n1 >= 0,
            gcd(m1 as nat, n1 as nat) == g,
            x * m + y * n == m1,
            x1 * m + y1 * n == n1,
            abs(x1 as int) * m1 + abs(x as int) * n1 == n,
            abs(y1 as int) * m1 + abs(y as int) * n1 == m,
            x * x1 <= 0,
            y * y1 <= 0,
        decreases n1,
    {
        let q = m1 / n1;
        proof {
            lemma_fundamental_div_mod(m1 as int, n1 as int);
            let r = m1 % n1;
            assert(q >= 0) by (nonlinear_arith)
                requires
                    m1 == n1 * q + r,
                    0 <= r < n1,
                    m1 >= 0,
            ;
            lemma_ext_step(x as int, x1 as int, q as int, m1 as int, n1 as int, n as int);
            lemma_ext_step(y as int, y1 as int, q as int, m1 as int, n1 as int, m as int);
            assert(q * n1 <= m1) by (nonlinear_arith)
                requires
                    m1 == n1 * q + r,
                    0 <= r,
            ;
        }
        let nx1 = x - q * x1;
        let ny1 = y - q * y1;
        let nn1 = m1 - q * n1;
        proof {
            lemma_fundamental_div_mod(m1 as int, n1 as int);
            assert(nn1 == m1 % n1);
            assert(gcd(m1 as nat, n1 as nat) == gcd(n1 as nat, (m1 % n1) as nat));
            assert(nx1 * m + ny1 * n == nn1) by (nonlinear_arith)
                requires
                    x * m + y * n == m1,
                    x1 * m + y1 * n == n1,
                    nx1 == x - q * x1,
                    ny1 == y - q * y1,
                    nn1 == m1 - q * n1,
            ;
        }
        x = x1;
        x1 = nx1;
        y = y1;
        y1 = ny1;
        m1 = n1;
        n1 = nn1;
    }
    (m1, x, y)
}

/// One step of the extended algorithm keeps the coefficients' bound:
/// `|x - q * x1| * n1 + |x1| * (m1 - q * n1) == n`, so `|x - q * x1| <= n`.
proof fn lemma_ext_step(x: int, x1: int, q: int, m1: int, n1: int, n: int)
    requires
        abs(x1) * m1 + abs(x) * n1 == n,
        x * x1 <= 0,
        q >= 0,
        n1 >= 1,
        q * n1 <= m1,
    ensures
        abs(x - q * x1) == abs(x) + q * abs(x1),
        abs(x - q * x1) * n1 + abs(x1) * (m1 - q * n1) == n,
        abs(x - q * x1) <= n,
        abs(q * x1) <= n,
        x1 * (x - q * x1) <= 0,
{
    if x1 >= 0 {
        assert(x <= 0 || x1 == 0) by (nonlinear_arith)
            requires
                x * x1 <= 0,
                x1 >= 0,
        ;
        if x1 == 0 {
            assert(q * x1 == 0) by (nonlinear_arith)
                requires
                    x1 == 0,
            ;
        } else {
            assert(q * x1 >= 0) by (nonlinear_arith)
                requires
                    q >= 0,
                    x1 >= 0,
            ;
        }
    } else {
        assert(x >= 0) by (nonlinear_arith)
            requires
                x * x1 <= 0,
                x1 < 0,
        ;
        assert(q * x1 <= 0) by (nonlinear_arith)
            requires
                q >= 0,
                x1 < 0,
        ;
    }
    assert(abs(x - q * x1) == abs(x) + q * abs(x1)) by (nonlinear_arith)
        requires
            x * x1 <= 0,
            q >= 0,
            x1 >= 0 ==> (x <= 0 || x1 == 0) && q * x1 >= 0,
            x1 < 0 ==> x >= 0 && q * x1 <= 0,
    ;
    assert(abs(x - q * x1) * n1 + abs(x1) * (m1 - q * n1) == n) by (nonlinear_arith)
        requires
            abs(x - q * x1) == abs(x) + q * abs(x1),
            abs(x1) * m1 + abs(x) * n1 == n,
    ;
    assert(abs(x - q * x1) <= n) by (nonlinear_arith)
        requires
            abs(x - q * x1) * n1 + abs(x1) * (m1 - q * n1) == n,
            abs(x1) >= 0,
            m1 - q * n1 >= 0,
            abs(x - q * x1) >= 0,
            n1 >= 1,
    ;
    assert(abs(q * x1) == q * abs(x1)) by (nonlinear_arith)
        requires
            q >= 0,
    ;
    assert(x1 * (x - q * x1) <= 0) by (nonlinear_arith)
        requires
            x * x1 <= 0,
            q >= 0,
    ;
}

/// The least common multiple, 0 where either number is 0.
pub open spec fn lcm_of(m: nat, n: nat) -> nat {
    if m == 0 || n == 0 { 0 } else { m * n / gcd(m, n) }
}

/// `lcm_of(m, n)` is a common multiple of `m` and `n`, and it divides every other.
pub proof fn law_lcm_least(m: nat, n: nat, c: int)
    requires
        m > 0,
        n > 0,
        divides(m as int, c),
        divides(n as int, c),
    ensures
        divides(m as int, lcm_of(m, n) as int),
        divides(n as int, lcm_of(m, n) as int),
        c > 0 ==> lcm_of(m, n) <= c,
        lcm_of(m, n) > 0,
{
    lemma_gcd_divides(m, n);
    let g = gcd(m, n) as int;
    lemma_fundamental_div_mod(m as int, g);
    lemma_fundamental_div_mod(n as int, g);
    let mg = m as int / g;
    let ng = n as int / g;
    // m * n / g == mg * n == m * ng
    assert(m * n == (mg * n) * g) by (nonlinear_arith)
        requires
            m == g * mg + 0,
    ;
    vstd::arithmetic::div_mod::lemma_div_by_multiple(mg * n, g);
    let l = mg * n;
    assert(l == lcm_of(m, n));
    assert(l == m * ng) by (nonlinear_arith)
        requires
            l == mg * n,
            m == g * mg + 0,
            n == g * ng + 0,
    ;
    assert(mg >= 1 && ng >= 1) by (nonlinear_arith)
        requires
            m == g * mg + 0,
            n == g * ng + 0,
            m > 0,
            n > 0,
            g > 0,
    ;
    lemma_mul_divides(n as int, mg);
    assert(n * mg == mg * n) by (nonlinear_arith);
    lemma_mul_divides(m as int, ng);
    assert(l > 0) by (nonlinear_arith)
        requires
            l == mg * n,
            mg >= 1,
            n > 0,
    ;
    if c > 0 {
        // c * g = c * (a * m + b * n) is a multiple of m * n
        lemma_bezout(m, n);
        let (a, b) = choose|a: int, b: int| #[trigger] lin_comb(m as int, a, n as int, b) == gcd(m, n);
        lemma_fundamental_div_mod(c, m as int);
        lemma_fundamental_div_mod(c, n as int);
        let cm = c / (m as int);
        let cn = c / (n as int);
        assert(c * g == c * m * a + c * n * b) by (nonlinear_arith)
            requires
                m * a + n * b == g,
        ;
        assert(c * m * a == (m * n) * (cn * a)) by (nonlinear_arith)
            requires
                c == n * cn,
        ;
        assert(c * n * b == (m * n) * (cm * b)) by (nonlinear_arith)
            requires
                c == m * cm,
        ;
        assert(c * g == (m * n) * (cn * a + cm * b)) by (nonlinear_arith)
            requires
                c * g == c * m * a + c * n * b,
                c * m * a == (m * n) * (cn * a),
                c * n * b == (m * n) * (cm * b),
        ;
        assert(c * g == l * g * (cn * a + cm * b)) by (nonlinear_arith)
            requires
                c * g == (m * n) * (cn * a + cm * b),
                m * n == l * g,
        ;
        assert(c == l * (cn * a + cm * b)) by (nonlinear_arith)
            requires
                c * g == l * g * (cn * a + cm * b),
                g > 0,
        ;
        assert(l <= c) by (nonlinear_arith)
            requires
                c == l * (cn * a + cm * b),
                c > 0,
                l > 0,
        ;
    }
}

/// The least common multiple by the product over the greatest common divisor.
pub fn lcm(m: u64, n: u64) -> (r: u64)
    requires
        m * n <= u64::MAX,
    ensures
        r == lcm_of(m as nat, n as nat),
{
    if m == 0 || n == 0 {
        0
    } else {
        let g = gcd_rem(m, n);
        proof {
            lemma_gcd_divides(m as nat, n as nat);
        }
        (m * n) / g
    }
}

/// The least common multiple by search upwards from the larger number.
pub fn lcm_brute(m: u64, n: u64) -> (r: u64)
    requires
        m * n <= u64::MAX,
    ensures
        r == lcm_of(m as nat, n as nat),
{
    let (hi, lo) = if m < n { (n, m) } else { (m, n) };
    if lo == 0 {
        return 0;
    }
    proof {
        lemma_gcd_comm(m as nat, n as nat);
        assert(m * n == n * m) by (nonlinear_arith);
        assert(lcm_of(hi as nat, lo as nat) == lcm_of(m as nat, n as nat));
        lemma_mul_divides(hi as int, lo as int);
        lemma_mul_divides(lo as int, hi as int);
        assert(hi * lo == lo * hi) by (nonlinear_arith);
        law_lcm_least(hi as nat, lo as nat, (hi * lo) as int);
        assert(hi * lo >= hi) by (nonlinear_arith)
            requires
                lo >= 1,
        ;
        // the least common multiple is a multiple of hi, so at least hi
        crate::prime_spec::lemma_divisor_le(hi as int, lcm_of(hi as nat, lo as nat) as int);
    }
    let top = hi * lo;
    let mut i = hi;
    while i <= top
        invariant
            hi >= lo >= 1,
            top == hi * lo,
            hi <= i,
            lcm_of(hi as nat, lo as nat) == lcm_of(m as nat, n as nat),
            lcm_of(hi as nat, lo as nat) > 0,
            i <= lcm_of(hi as nat, lo as nat) <= top,
            divides(hi as int, lcm_of(hi as nat, lo as nat) as int),
            divides(lo as int, lcm_of(hi as nat, lo as nat) as int),
        decreases top + 1 - i,
    {
        if i % hi == 0 && i % lo == 0 {
            proof {
                law_lcm_least(hi as nat, lo as nat, i as int);
            }
            return i;
        }
        proof {
            if i == lcm_of(hi as nat, lo as nat) {
                assert(i % hi == 0 && i % lo == 0);
            }
        }
        i = i + 1;
    }
    hi
}

} // verus!

//! Mairson's sieve: the integers `1..=n` sit in a doubly linked list kept in two
//! arrays. For each prime `p` in turn, the list is walked down from the largest
//! `f` with `p * f <= n` to `p`, and each `p * f` is unlinked; what stays linked in
//! the end is 1 and the primes. Every composite is unlinked exactly once.

use vstd::prelude::*;
use vstd::arithmetic::div_mod::{lemma_fundamental_div_mod, lemma_div_multiples_vanish};
use crate::prime_spec::{
    is_prime, divides, is_prime_seq, lemma_euclid, lemma_mul_divides, lemma_divides_trans,
    lemma_prime_seq_push, lpf_of, lemma_lpf_of,
};
use crate::wheel::{rough, lemma_prime_rough, lemma_rough_prime_at_least, lemma_rough_small_is_prime};
use crate::prime_sieves::e_sieve;

verus! {

/// `x` stays in the list while the multiples of `p` are struck: it is 1, a prime,
/// or free of the primes below `p`.
pub open spec fn kept(x: int, p: int) -> bool {
    x == 1 || is_prime(x) || rough(x, p)
}

/// Position `x` is linked in; the value `n + 1` in `right` marks one taken out.
pub open spec fn linked(right: Seq<usize>, n: int, x: int) -> bool {
    right[x] != n + 1
}

/// The arrays link the positions of `[0, n]` that are linked in, in increasing
/// order from 0: `right` to the next one (0 after the last), `left` to the one
/// before. A position taken out keeps a `left` below it, with nothing linked in
/// between.
pub open spec fn list_ok(right: Seq<usize>, left: Seq<usize>, n: int) -> bool {
    &&& right.len() == n + 1
    &&& left.len() == n + 1
    &&& linked(right, n, 0)
    &&& forall|x: int| 0 <= x <= n && #[trigger] linked(right, n, x) ==> (
            if right[x] == 0 {
                forall|y: int| x < y <= n ==> !#[trigger] linked(right, n, y)
            } else {
                &&& x < right[x] <= n
                &&& linked(right, n, right[x] as int)
                &&& forall|y: int| x < y < right[x] ==> !#[trigger] linked(right, n, y)
            })
    &&& forall|x: int| 1 <= x <= n ==> {
            &&& #[trigger] left[x] < x
            &&& linked(right, n, x) ==> linked(right, n, left[x] as int)
            &&& forall|y: int| left[x] < y < x ==> !#[trigger] linked(right, n, y)
        }
}

/// Takes the linked position `z` out of the list.
fn unlink(right: &mut Vec<usize>, left: &mut Vec<usize>, n: usize, z: usize)
    requires
        n < usize::MAX,
        list_ok(old(right)@, old(left)@, n as int),
        1 <= z <= n,
        linked(old(right)@, n as int, z as int),
    ensures
        list_ok(final(right)@, final(left)@, n as int),
        forall|x: int| 0 <= x <= n ==> #[trigger] linked(final(right)@, n as int, x)
            == (linked(old(right)@, n as int, x) && x != z),
{
    let ghost r0 = right@;
    let ghost l0 = left@;
    let ghost nn = n as int;
    let a = left[z];
    let b = right[z];
    proof {
        assert(l0[z as int] < z);
        assert(linked(r0, nn, a as int));
    }
    right.set(a, b);
    left.set(b, a);
    right.set(z, n + 1);
    proof {
        let r1 = right@;
        let l1 = left@;
        assert forall|x: int| 0 <= x <= n implies #[trigger] linked(r1, nn, x)
            == (linked(r0, nn, x) && x != z) by {
            if x != a && x != z {
                assert(r1[x] == r0[x]);
            }
        }
        // the position linked before `z` is `a`, the one after is `b`
        assert forall|x: int| 0 <= x <= n && linked(r0, nn, x) && r0[x] == z implies x == a by {
            if x < a {
                assert(!linked(r0, nn, a as int));
            } else if x > a {
                assert(!linked(r0, nn, x));
            }
        }
        assert forall|x: int| 1 <= x <= n && linked(r0, nn, x) && l0[x] == z implies x == b by {
            if b == 0 {
                assert(!linked(r0, nn, x));
            } else if x < b {
                assert(!linked(r0, nn, x));
            } else if x > b {
                assert(!linked(r0, nn, b as int));
            }
        }
        assert forall|x: int| 0 <= x <= n && #[trigger] linked(r1, nn, x) implies (
            if r1[x] == 0 {
                forall|y: int| x < y <= n ==> !#[trigger] linked(r1, nn, y)
            } else {
                &&& x < r1[x] <= n
                &&& linked(r1, nn, r1[x] as int)
                &&& forall|y: int| x < y < r1[x] ==> !#[trigger] linked(r1, nn, y)
            }) by {
            assert(linked(r0, nn, x));
            if x == a {
                assert(r1[x] == b);
                if b == 0 {
                    assert forall|y: int| x < y <= n implies !#[trigger] linked(r1, nn, y) by {
                        if y != z {
                            assert(!linked(r0, nn, y));
                        }
                    }
                } else {
                    assert forall|y: int| x < y < r1[x] implies !#[trigger] linked(r1, nn, y) by {
                        if y != z {
                            assert(!linked(r0, nn, y));
                        }
                    }
                }
            } else {
                assert(r1[x] == r0[x]);
                if r0[x] == 0 {
                    assert forall|y: int| x < y <= n implies !#[trigger] linked(r1, nn, y) by {
                        assert(!linked(r0, nn, y));
                    }
                } else {
                    assert(r0[x] != z);
                    assert forall|y: int| x < y < r1[x] implies !#[trigger] linked(r1, nn, y) by {
                        assert(!linked(r0, nn, y));
                    }
                }
            }
        }
        assert forall|x: int| 1 <= x <= n implies {
            &&& #[trigger] l1[x] < x
            &&& linked(r1, nn, x) ==> linked(r1, nn, l1[x] as int)
            &&& forall|y: int| l1[x] < y < x ==> !#[trigger] linked(r1, nn, y)
        } by {
            assert(l0[x] < x);
            if x == b {
                assert(l1[x] == a);
                assert(linked(r0, nn, x));
                assert forall|y: int| l1[x] < y < x implies !#[trigger] linked(r1, nn, y) by {
                    if y != z {
                        assert(!linked(r0, nn, y));
                    }
                }
            } else {
                assert(l1[x] == l0[x]);
                if linked(r1, nn, x) {
                    assert(l0[x] != z);
                }
                assert forall|y: int| l1[x] < y < x implies !#[trigger] linked(r1, nn, y) by {
                    assert(!linked(r0, nn, y));
                }
            }
        }
    }
}

/// `x` is `p * g` for some `g` in `(lo, hi]` free of the primes below `p`.
pub open spec fn struck(x: int, p: int, lo: int, hi: int) -> bool {
    x % p == 0 && lo < x / p <= hi && rough(x / p, p)
}

/// The list of all of `[0, n]`.
fn full_list(n: usize) -> (r: (Vec<usize>, Vec<usize>))
    requires
        1 <= n < usize::MAX,
    ensures
        list_ok(r.0@, r.1@, n as int),
        forall|x: int| 0 <= x <= n ==> #[trigger] linked(r.0@, n as int, x),
{
    let mut right: Vec<usize> = Vec::new();
    let mut i: usize = 0;
    while i < n
        invariant
            n < usize::MAX,
            i <= n,
            right@.len() == i,
            forall|k: int| 0 <= k < i ==> #[trigger] right@[k] == k + 1,
        decreases n - i,
    {
        right.push(i + 1);
        i = i + 1;
    }
    right.push(0);
    let mut left: Vec<usize> = Vec::new();
    left.push(0);
    let mut i: usize = 1;
    while i <= n
        invariant
            n < usize::MAX,
            1 <= i <= n + 1,
            left@.len() == i,
            left@[0] == 0,
            forall|k: int| 1 <= k < i ==> #[trigger] left@[k] == k - 1,
        decreases n + 1 - i,
    {
        left.push(i - 1);
        i = i + 1;
    }
    proof {
        let nn = n as int;
        assert forall|x: int| 0 <= x <= n implies #[trigger] linked(right@, nn, x) by {
            if x < n {
                assert(right@[x] == x + 1);
            } else {
                assert(right@[x] == 0);
            }
        }
        assert forall|x: int| 0 <= x <= n && #[trigger] linked(right@, nn, x) implies (
            if right@[x] == 0 {
                forall|y: int| x < y <= n ==> !#[trigger] linked(right@, nn, y)
            } else {
                &&& x < right@[x] <= n
                &&& linked(right@, nn, right@[x] as int)
                &&& forall|y: int| x < y < right@[x] ==> !#[trigger] linked(right@, nn, y)
            }) by {
            if x < n {
                assert(right@[x] == x + 1);
                assert(linked(right@, nn, x + 1));
            } else {
                assert(right@[x] == 0);
            }
        }
        assert forall|x: int| 1 <= x <= n implies {
            &&& #[trigger] left@[x] < x
            &&& linked(right@, nn, x) ==> linked(right@, nn, left@[x] as int)
            &&& forall|y: int| left@[x] < y < x ==> !#[trigger] linked(right@, nn, y)
        } by {
            assert(left@[x] == x - 1);
            assert(linked(right@, nn, x - 1));
        }
    }
    (right, left)
}

/// An integer `g >= 2` free of the primes below `p` is at least `p`.
proof fn lemma_rough_at_least(g: int, p: int)
    requires
        g >= 2,
        rough(g, p),
    ensures
        g >= p,
{
    lemma_lpf_of(g);
    let q = lpf_of(g);
    if q < p {
        assert(!divides(q, g));
    }
}

/// A multiple `p * f` of a prime `p`, with `f` free of the primes below `p`, is
/// itself free of them.
proof fn lemma_rough_multiple(p: int, f: int)
    requires
        is_prime(p),
        f >= 1,
        rough(f, p),
    ensures
        rough(p * f, p),
{
    assert forall|q: int| 2 <= q < p && is_prime(q) implies !#[trigger] divides(q, p * f) by {
        if divides(q, p * f) {
            lemma_euclid(q, p, f);
            if divides(q, p) {
                assert(!divides(q, p));
            }
            assert(!divides(q, f));
        }
    }
}

/// Striking out the multiples `p * g` with `g >= p` free of the primes below `p`
/// turns what is kept for `p` into what is kept for `p + 1`.
proof fn lemma_strike_round(x: int, p: int)
    requires
        is_prime(p),
        x >= 1,
    ensures
        (kept(x, p) && !(x % p == 0 && x / p >= p && rough(x / p, p))) == kept(x, p + 1),
{
    lemma_fundamental_div_mod(x, p);
    let g = x / p;
    if kept(x, p) && !(x % p == 0 && g >= p && rough(g, p)) {
        if x != 1 && !is_prime(x) {
            assert(rough(x, p));
            if x % p == 0 {
                assert(x == p * g);
                assert(g >= 1) by (nonlinear_arith)
                    requires
                        x == p * g,
                        x >= 1,
                        p >= 2,
                ;
                if g == 1 {
                    assert(x == p) by (nonlinear_arith)
                        requires
                            x == p * g,
                            g == 1,
                    ;
                }
                assert forall|q: int| 2 <= q < p && is_prime(q) implies !#[trigger] divides(q, g) by {
                    if divides(q, g) {
                        lemma_mul_divides(g, p);
                        assert(p * g == g * p) by (nonlinear_arith);
                        lemma_divides_trans(q, g, x);
                        assert(!divides(q, x));
                    }
                }
                lemma_rough_at_least(g, p);
            }
            assert forall|q: int| 2 <= q < p + 1 && is_prime(q) implies !#[trigger] divides(q, x) by {
                if q < p {
                    assert(!divides(q, x));
                }
            }
        }
    }
    if kept(x, p + 1) {
        if rough(x, p + 1) {
            assert forall|q: int| 2 <= q < p && is_prime(q) implies !#[trigger] divides(q, x) by {
                assert(!divides(q, x));
            }
        }
        if x % p == 0 && g >= p && rough(g, p) {
            assert(x == p * g);
            assert(x > p && p >= 2) by (nonlinear_arith)
                requires
                    x == p * g,
                    g >= p,
                    p >= 2,
            ;
            assert(divides(p, x));
            assert(!is_prime(x));
            assert(!rough(x, p + 1));
        }
    }
}

/// The next multiple to strike, `p * f`, is linked in.
proof fn lemma_strike_target(right: Seq<usize>, n: int, p: int, f: int, f_max: int)
    requires
        is_prime(p),
        p <= f <= f_max <= n,
        p * f <= n,
        linked(right, n, f),
        forall|x: int| 1 <= x <= n ==> #[trigger] linked(right, n, x)
            == (kept(x, p) && !struck(x, p, f, f_max)),
    ensures
        linked(right, n, p * f),
        p * f > f,
        (p * f) / p == f,
        (p * f) % p == 0,
{
    assert(kept(f, p));
    if !rough(f, p) {
        lemma_prime_rough(f, p);
    }
    lemma_rough_multiple(p, f);
    lemma_div_multiples_vanish(f, p);
    lemma_fundamental_div_mod(p * f, p);
    assert(p * f > f) by (nonlinear_arith)
        requires
            p >= 2,
            f >= 1,
    ;
    assert(kept(p * f, p));
    assert(!struck(p * f, p, f, f_max));
}

/// After `p * f` is struck, moving `f` to the linked position before it keeps the
/// struck multiples those of `(left[f], f_max]`.
proof fn lemma_walk_step(right: Seq<usize>, left: Seq<usize>, n: int, p: int, f: int, f_max: int)
    requires
        list_ok(right, left, n),
        is_prime(p),
        p <= f <= f_max <= n,
        p * f <= n,
        (p * f) / p == f,
        (p * f) % p == 0,
        linked(right, n, f),
        forall|x: int| 1 <= x <= n ==> #[trigger] linked(right, n, x)
            == (kept(x, p) && !struck(x, p, f, f_max) && x != p * f),
    ensures
        1 <= left[f] < f,
        linked(right, n, left[f] as int),
        forall|x: int| 1 <= x <= n ==> #[trigger] linked(right, n, x)
            == (kept(x, p) && !struck(x, p, left[f] as int, f_max)),
{
    let nf = left[f] as int;
    assert(linked(right, n, 1)) by {
        assert(kept(1, p));
    }
    assert(nf >= 1);
    assert forall|x: int| 1 <= x <= n implies #[trigger] linked(right, n, x)
        == (kept(x, p) && !struck(x, p, nf, f_max)) by {
        let g = x / p;
        lemma_fundamental_div_mod(x, p);
        if x % p == 0 && nf < g <= f && rough(g, p) {
            if g < f {
                assert(g >= 1);
                assert(kept(g, p));
                if g % p == 0 {
                    lemma_fundamental_div_mod(g, p);
                    assert(g / p < g) by (nonlinear_arith)
                        requires
                            g == p * (g / p),
                            p >= 2,
                            g >= 1,
                    ;
                }
                assert(!struck(g, p, f, f_max));
                assert(g != p * f) by (nonlinear_arith)
                    requires
                        g < f,
                        p >= 2,
                        f >= 1,
                ;
                assert(!linked(right, n, g));
            }
            assert(g == f);
            assert(x == p * f);
        }
    }
}

/// Once the walk passes below `p`, the struck multiples are all `p * g` with
/// `g >= p` free of the primes below `p`, and what stays is what is kept for `p + 1`.
proof fn lemma_round_done(right: Seq<usize>, n: int, p: int, f: int, f_max: int)
    requires
        is_prime(p),
        1 <= f < p,
        f_max <= n,
        forall|y: int| f_max < y <= n && kept(y, p) ==> y * p > n,
        forall|x: int| 1 <= x <= n ==> #[trigger] linked(right, n, x)
            == (kept(x, p) && !struck(x, p, f, f_max)),
    ensures
        forall|x: int| 1 <= x <= n ==> #[trigger] linked(right, n, x) == kept(x, p + 1),
{
    assert forall|x: int| 1 <= x <= n implies #[trigger] linked(right, n, x) == kept(x, p + 1) by {
        lemma_strike_round(x, p);
        let g = x / p;
        lemma_fundamental_div_mod(x, p);
        if x % p == 0 && rough(g, p) && g > f {
            assert(g >= 2);
            lemma_rough_at_least(g, p);
            if g > f_max {
                assert(kept(g, p));
                assert(g <= n) by (nonlinear_arith)
                    requires
                        x == p * g,
                        p >= 2,
                        x <= n,
                        g >= 1,
                ;
                assert(g * p > n);
                assert(g * p == p * g) by (nonlinear_arith);
            }
        }
        if x % p == 0 && g >= p && rough(g, p) {
            if g > f_max {
                assert(kept(g, p));
                assert(g <= n) by (nonlinear_arith)
                    requires
                        x == p * g,
                        p >= 2,
                        x <= n,
                        g >= 1,
                ;
                assert(g * p > n);
                assert(g * p == p * g) by (nonlinear_arith);
            }
        }
    }
}

/// The linked position after the prime `p`, in the list of what is kept for
/// `p + 1`, is the next prime, and what is kept for `p + 1` is what is kept for it.
proof fn lemma_next_linked_prime(right: Seq<usize>, left: Seq<usize>, n: int, p: int)
    requires
        list_ok(right, left, n),
        forall|x: int| 1 <= x <= n ==> #[trigger] linked(right, n, x) == kept(x, p + 1),
        is_prime(p),
        p <= n,
        right[p] != 0,
    ensures
        p < right[p] <= n,
        is_prime(right[p] as int),
        forall|q: int| p < q < right[p] ==> !is_prime(q),
        forall|x: int| #[trigger] kept(x, p + 1) == kept(x, right[p] as int),
{
    assert(linked(right, n, p)) by {
        assert(kept(p, p + 1));
    }
    let np = right[p] as int;
    assert(linked(right, n, np));
    assert(kept(np, p + 1));
    assert forall|r: int| p < r < np implies !is_prime(r) by {
        if is_prime(r) {
            assert(kept(r, p + 1));
            assert(!linked(right, n, r));
        }
    }
    if !is_prime(np) {
        assert(rough(np, p + 1));
        lemma_lpf_of(np);
        let q = lpf_of(np);
        if q < p + 1 {
            assert(!divides(q, np));
        }
        if q < np {
            assert(!is_prime(q));
        }
    }
    let p1 = p + 1;
    assert forall|x: int| #[trigger] kept(x, p1) == kept(x, np) by {
        if rough(x, p1) {
            assert forall|q: int| 2 <= q < np && is_prime(q) implies !#[trigger] divides(q, x) by {
                assert(q < p1);
            }
        }
        if rough(x, np) {
            assert forall|q: int| 2 <= q < p1 && is_prime(q) implies !#[trigger] divides(q, x) by {
                assert(q < np);
            }
        }
    }
}

/// Mairson's sieve: the primes up to `n`.
pub fn mairson_sieve(n: usize) -> (r: Vec<usize>)
    requires
        n < usize::MAX,
    ensures
        is_prime_seq(r@, 0, n as int),
{
    if n == 0 {
        return Vec::new();
    }
    let ghost nn = n as int;
    let (mut right, mut left) = full_list(n);
    let mut p: usize = 2;
    let mut f_max: usize = n / 2;
    proof {
        crate::prime_spec::lemma_primes_upto_3();
        assert forall|x: int| 1 <= x <= n implies #[trigger] linked(right@, nn, x) == kept(x, 2) by {
            assert(rough(x, 2));
        }
        assert forall|y: int| f_max < y <= n && kept(y, 2) implies y * 2 > n by {}
    }
    while f_max >= p
        invariant
            n < usize::MAX,
            nn == n,
            list_ok(right@, left@, nn),
            forall|x: int| 1 <= x <= n ==> #[trigger] linked(right@, nn, x) == kept(x, p as int),
            is_prime(p as int),
            2 <= p <= n + 1,
            f_max <= n,
            linked(right@, nn, f_max as int),
            f_max * p <= n,
            forall|y: int| f_max < y <= n && kept(y, p as int) ==> y * p > n,
        decreases n + 1 - p,
    {
        let ghost pp = p as int;
        let mut f = f_max;
        proof {
            assert forall|x: int| 1 <= x <= n implies #[trigger] linked(right@, nn, x)
                == (kept(x, pp) && !struck(x, pp, f as int, f_max as int)) by {}
        }
        while f >= p
            invariant
                n < usize::MAX,
                nn == n,
                pp == p,
                list_ok(right@, left@, nn),
                is_prime(pp),
                1 <= f <= f_max,
                f_max <= n,
                f_max * p <= n,
                linked(right@, nn, f as int),
                forall|x: int| 1 <= x <= n ==> #[trigger] linked(right@, nn, x)
                    == (kept(x, pp) && !struck(x, pp, f as int, f_max as int)),
            decreases f,
        {
            assert(p * f <= n) by (nonlinear_arith)
                requires
                    f <= f_max,
                    f_max * p <= n,
            ;
            let z = p * f;
            proof {
                lemma_strike_target(right@, nn, pp, f as int, f_max as int);
            }
            unlink(&mut right, &mut left, n, z);
            let nf = left[f];
            proof {
                lemma_walk_step(right@, left@, nn, pp, f as int, f_max as int);
            }
            f = nf;
        }
        // what stays linked is what is kept for `p + 1`
        proof {
            lemma_round_done(right@, nn, pp, f as int, f_max as int);
        }
        let np = right[p];
        if np == 0 {
            // a prime lies between `p` and `2 * p` (Bertrand); this arm only makes
            // the contract independent of that fact
            return e_sieve(n);
        }
        proof {
            assert(p <= n) by {
                assert(f_max * p <= n);
                assert(p <= f_max);
                assert(f_max * p >= p) by (nonlinear_arith)
                    requires
                        f_max >= p,
                        p >= 2,
                ;
            }
            lemma_next_linked_prime(right@, left@, nn, pp);
        }
        let ghost old_fmax = f_max;
        p = np;
        proof {
            assert forall|x: int| 1 <= x <= n implies #[trigger] linked(right@, nn, x) == kept(x, p as int) by {
                assert(kept(x, pp + 1) == kept(x, p as int));
            }
            assert forall|y: int| f_max < y <= n && #[trigger] linked(right@, nn, y) implies y * p > n by {
                assert(kept(y, pp + 1) == kept(y, p as int));
                assert(kept(y, pp)) by {
                    if rough(y, pp + 1) {
                        assert forall|q: int| 2 <= q < pp && is_prime(q) implies !#[trigger] divides(q, y) by {
                            assert(!divides(q, y));
                        }
                    }
                }
                assert(y * pp > n);
                assert(y * p > y * pp) by (nonlinear_arith)
                    requires
                        p > pp,
                        y >= 1,
                ;
            }
        }
        while right[f_max] == n + 1
            invariant
                n < usize::MAX,
                nn == n,
                list_ok(right@, left@, nn),
                f_max <= n,
                forall|y: int| f_max < y <= n && #[trigger] linked(right@, nn, y) ==> y * p > n,
            decreases f_max,
        {
            proof {
                assert(f_max != 0);
                assert(left@[f_max as int] < f_max);
            }
            f_max = left[f_max];
        }
        proof {
            crate::number::lemma_le_div_iff_mul_le(f_max as int, p as int, n as int);
        }
        while f_max > n / p
            invariant
                n < usize::MAX,
                nn == n,
                p >= 2,
                list_ok(right@, left@, nn),
                f_max <= n,
                linked(right@, nn, f_max as int),
                forall|y: int| f_max < y <= n && #[trigger] linked(right@, nn, y) ==> y * p > n,
                (f_max <= n / p) == (f_max * p <= n),
            decreases f_max,
        {
            proof {
                assert(f_max != 0);
                assert(left@[f_max as int] < f_max);
                assert(f_max * p > n);
            }
            f_max = left[f_max];
            proof {
                crate::number::lemma_le_div_iff_mul_le(f_max as int, p as int, n as int);
            }
        }
        proof {
            assert forall|y: int| f_max < y <= n && kept(y, p as int) implies y * p > n by {
                assert(linked(right@, nn, y));
            }
        }
    }

    // what stays linked is 1 and the primes
    proof {
        assert(p * p > n) by {
            if p <= n {
                assert(kept(p as int, p as int));
            }
            if p > n {
                assert(p * p > n) by (nonlinear_arith)
                    requires
                        p > n,
                        p >= 2,
                ;
            }
        }
        assert forall|x: int| 1 <= x <= n implies #[trigger] linked(right@, nn, x) == (x == 1 || is_prime(x)) by {
            if linked(right@, nn, x) && x != 1 && !is_prime(x) {
                assert(rough(x, p as int));
                lemma_rough_small_is_prime(x, p as int);
            }
        }
    }
    let mut out: Vec<usize> = Vec::new();
    let mut i: usize = 1;
    proof {
        assert(linked(right@, nn, 1));
    }
    while right[i] != 0
        invariant
            n < usize::MAX,
            nn == n,
            list_ok(right@, left@, nn),
            forall|x: int| 1 <= x <= n ==> #[trigger] linked(right@, nn, x) == (x == 1 || is_prime(x)),
            1 <= i <= n,
            linked(right@, nn, i as int),
            is_prime_seq(out@, 0, i as int),
        decreases n - i,
    {
        let j = right[i];
        proof {
            assert(linked(right@, nn, j as int));
            assert forall|q: int| i < q < j implies !is_prime(q) by {
                assert(!linked(right@, nn, q));
            }
            lemma_prime_seq_push(out@, 0, i as int, j);
        }
        out.push(j);
        i = j;
    }
    proof {
        assert forall|q: int| 0 < q <= n && is_prime(q) implies out@.contains(q as usize) by {
            if q > i {
                assert(!linked(right@, nn, q));
            }
        }
    }
    out
}

} // verus!

//! Pritchard's wheel sieve. The wheel of the primes below `p` is the list of the
//! integers up to `l` that none of them divides, where `l` is their product (or
//! the bound, whichever is smaller). Each round rolls the wheel forward to `p * l`,
//! strikes out the multiples of `p`, and takes the next prime as the element that
//! follows 1. Once `p * p` passes the bound, what the wheel holds besides 1 is
//! prime.

use vstd::prelude::*;
use vstd::arithmetic::div_mod::{lemma_add_mod_noop, lemma_mod_twice};
use crate::prime_spec::{
    is_prime, divides, is_prime_seq, is_least_prime_factor, lpf_of, lemma_lpf_of,
    lemma_composite_has_small_prime_factor, lemma_prime_seq_push, lemma_prime_seq_concat,
    lemma_mul_divides, lemma_divides_trans,
};
use crate::prime_sieves::e_sieve;

verus! {

/// No prime below `p` divides `x`.
pub open spec fn rough(x: int, p: int) -> bool {
    forall|q: int| 2 <= q < p && is_prime(q) ==> !#[trigger] divides(q, x)
}

/// `w` holds, in strictly increasing order, exactly the integers of `[1, b]` that
/// no prime below `p` divides.
pub open spec fn is_wheel(w: Seq<usize>, b: int, p: int) -> bool {
    &&& forall|i: int, j: int| 0 <= i < j < w.len() ==> w[i] < w[j]
    &&& forall|i: int| 0 <= i < w.len() ==> 1 <= #[trigger] w[i] <= b && rough(w[i] as int, p)
    &&& forall|x: int| 1 <= x <= b && rough(x, p) ==> w.contains(x as usize)
}

/// Every prime below `p` divides `l`: the wheel turns with period `l`.
pub open spec fn turns_with(l: int, p: int) -> bool {
    forall|q: int| 2 <= q < p && is_prime(q) ==> #[trigger] divides(q, l)
}

/// Shifting by a period keeps an integer rough.
pub proof fn lemma_rough_shift(x: int, l: int, p: int)
    requires
        turns_with(l, p),
    ensures
        rough(x, p) == rough(x + l, p),
{
    assert forall|q: int| 2 <= q < p && is_prime(q) implies (divides(q, x) <==> divides(q, x + l)) by {
        assert(divides(q, l));
        lemma_add_mod_noop(x, l, q);
        lemma_mod_twice(x, q);
    }
    if rough(x, p) {
        assert forall|q: int| 2 <= q < p && is_prime(q) implies !#[trigger] divides(q, x + l) by {
            assert(!divides(q, x));
        }
    }
    if rough(x + l, p) {
        assert forall|q: int| 2 <= q < p && is_prime(q) implies !#[trigger] divides(q, x) by {
            assert(!divides(q, x + l));
        }
    }
}

/// A prime at least `p` is rough.
pub proof fn lemma_prime_rough(q: int, p: int)
    requires
        is_prime(q),
        q >= p,
    ensures
        rough(q, p),
{
    assert forall|r: int| 2 <= r < p && is_prime(r) implies !#[trigger] divides(r, q) by {
        assert(2 <= r < q);
    }
}

/// A rough prime is at least `p`.
pub proof fn lemma_rough_prime_at_least(x: int, p: int)
    requires
        is_prime(x),
        rough(x, p),
    ensures
        x >= p,
{
    if x < p {
        assert(divides(x, x)) by {
            lemma_mul_divides(x, 1);
        }
        assert(!divides(x, x));
    }
}

/// A rough integer below `p * p` is 1 or prime.
pub proof fn lemma_rough_small_is_prime(x: int, p: int)
    requires
        rough(x, p),
        2 <= x < p * p,
        p >= 2,
    ensures
        is_prime(x),
{
    if !is_prime(x) {
        lemma_composite_has_small_prime_factor(x);
        let q = choose|q: int| is_prime(q) && q * q <= x && #[trigger] divides(q, x);
        assert(q < p) by (nonlinear_arith)
            requires
                q * q <= x,
                x < p * p,
                q >= 2,
                p >= 2,
        ;
        assert(!divides(q, x));
    }
}

/// One step of rolling: the element `w[i]` shifted by `l` follows the wheel of
/// `[1, b]`, where `b` is `l`, or `l` plus the element before `w[i]`.
proof fn lemma_roll_step(w: Seq<usize>, i: int, l: int, b: int, p: int)
    requires
        is_wheel(w, b, p),
        0 <= i < w.len(),
        w[0] == 1,
        turns_with(l, p),
        b == (if i == 0 { l } else { l + w[i - 1] }),
        l >= 1,
        l + w[i] <= usize::MAX,
    ensures
        is_wheel(w.push((l + w[i]) as usize), l + w[i], p),
{
    let v = l + w[i];
    let w2 = w.push(v as usize);
    if i > 0 {
        assert(w[i - 1] < w[i]);
    }
    assert(v > b);
    assert forall|a: int, c: int| 0 <= a < c < w2.len() implies w2[a] < w2[c] by {
        if c == w.len() {
            assert(w2[a] == w[a]);
        } else {
            assert(w2[a] == w[a] && w2[c] == w[c]);
        }
    }
    lemma_rough_shift(w[i] as int, l, p);
    assert forall|k: int| 0 <= k < w2.len() implies 1 <= #[trigger] w2[k] <= v && rough(w2[k] as int, p) by {
        if k < w.len() {
            assert(w2[k] == w[k]);
        }
    }
    assert forall|x: int| 1 <= x <= v && rough(x, p) implies w2.contains(x as usize) by {
        if x <= b {
            let k = choose|k: int| 0 <= k < w.len() && w[k] == x as usize;
            assert(w2[k] == w[k]);
        } else {
            lemma_rough_shift(x - l, l, p);
            let y = x - l;
            assert(1 <= y <= w[i]);
            assert(y <= b);
            let k = choose|k: int| 0 <= k < w.len() && w[k] == y as usize;
            if k > i {
                assert(w[i] < w[k]);
            }
            if k < i {
                if k < i - 1 {
                    assert(w[k] < w[i - 1]);
                }
            }
            assert(k == i);
            assert(w2[w.len() as int] == v);
        }
    }
}

/// When rolling stops, the wheel of `[1, b]` is that of `[1, bound]`: the next
/// shifted element would pass `bound`.
proof fn lemma_roll_done(w: Seq<usize>, i: int, l: int, b: int, bound: int, p: int)
    requires
        is_wheel(w, b, p),
        0 <= i < w.len(),
        w[0] == 1,
        bound == l || turns_with(l, p),
        b == (if i == 0 { l } else { l + w[i - 1] }),
        1 <= l <= bound,
        b <= bound,
        l + w[i] > bound,
    ensures
        is_wheel(w, bound, p),
{
    assert forall|x: int| 1 <= x <= bound && rough(x, p) implies w.contains(x as usize) by {
        if x > b {
            assert(bound != l);
            lemma_rough_shift(x - l, l, p);
            let y = x - l;
            assert(1 <= y < w[i]);
            let k = choose|k: int| 0 <= k < w.len() && w[k] == y as usize;
            if k >= i {
                if k > i {
                    assert(w[i] < w[k]);
                }
            } else if k < i - 1 {
                assert(w[k] < w[i - 1]);
            }
        }
    }
}

/// The `k`-th element of a strictly increasing sequence of positive integers is
/// at least `k + 1`.
proof fn lemma_increasing_at_least(w: Seq<usize>, k: int)
    requires
        forall|i: int, j: int| 0 <= i < j < w.len() ==> w[i] < w[j],
        w.len() >= 1,
        w[0] >= 1,
        0 <= k < w.len(),
    ensures
        w[k] >= k + 1,
    decreases k,
{
    if k > 0 {
        lemma_increasing_at_least(w, k - 1);
        assert(w[k - 1] < w[k]);
    }
}

/// Rolls the wheel of `[1, l]` forward to `[1, bound]`: each element up to
/// `bound - l` comes back shifted by `l`, the new ones included.
pub(crate) fn roll(w: &mut Vec<usize>, l: usize, bound: usize, Ghost(p): Ghost<int>)
    requires
        is_wheel(old(w)@, l as int, p),
        1 <= l <= bound,
        old(w)@.len() >= 1,
        old(w)@[0] == 1,
        bound == l || turns_with(l as int, p),
    ensures
        is_wheel(final(w)@, bound as int, p),
        final(w)@.len() >= 1,
        final(w)@[0] == 1,
{
    let ghost len0 = w@.len();
    proof {
        assert forall|k: int| 0 <= k < w@.len() implies #[trigger] w@[k] >= k + 1 by {
            lemma_increasing_at_least(w@, k);
        }
    }
    let mut i: usize = 0;
    while w[i] <= bound - l
        invariant
            1 <= l <= bound,
            bound == l || turns_with(l as int, p),
            w@.len() == len0 + i,
            len0 >= 1,
            w@[0] == 1,
            i < w@.len(),
            forall|k: int| 0 <= k < w@.len() ==> #[trigger] w@[k] >= k + 1,
            is_wheel(w@, if i == 0 { l as int } else { l + w@[i - 1] }, p),
            i > 0 ==> l + w@[i - 1] <= bound,
        decreases bound - i,
    {
        let v = l + w[i];
        proof {
            let b = if i == 0 { l as int } else { l + w@[i - 1] };
            lemma_roll_step(w@, i as int, l as int, b, p);
            let last = w@.len() - 1;
            assert(w@[last] <= b);
        }
        w.push(v);
        i = i + 1;
    }
    proof {
        let b = if i == 0 { l as int } else { l + w@[i - 1] };
        lemma_roll_done(w@, i as int, l as int, b, bound as int, p);
    }
}

/// Striking the multiples of the prime `p` out of a wheel for `p` gives the wheel
/// for `p + 1`.
pub(crate) fn strike(w: &Vec<usize>, p: usize, Ghost(b): Ghost<int>) -> (r: Vec<usize>)
    requires
        is_wheel(w@, b, p as int),
        is_prime(p as int),
        w@.len() >= 1,
        w@[0] == 1,
        b <= usize::MAX,
    ensures
        is_wheel(r@, b, p + 1),
        r@.len() >= 1,
        r@[0] == 1,
{
    let mut r: Vec<usize> = Vec::new();
    let mut i: usize = 0;
    while i < w.len()
        invariant
            is_wheel(w@, b, p as int),
            is_prime(p as int),
            w@[0] == 1,
            i <= w@.len(),
            forall|a: int, c: int| 0 <= a < c < r@.len() ==> r@[a] < r@[c],
            forall|j: int| #![trigger r@[j]] 0 <= j < r@.len() ==> exists|k: int| 0 <= k < i && #[trigger] w@[k] == r@[j],
            forall|j: int| 0 <= j < r@.len() ==> r@[j] % p != 0,
            forall|k: int| 0 <= k < i && #[trigger] w@[k] % p != 0 ==> r@.contains(w@[k]),
            i > 0 ==> r@.len() >= 1 && r@[0] == 1,
        decreases w@.len() - i,
    {
        let x = w[i];
        proof {
            if i == 0 {
                assert(x == 1);
                vstd::arithmetic::div_mod::lemma_small_mod(1, p as nat);
            }
        }
        if x % p != 0 {
            let ghost old_r = r@;
            proof {
                assert forall|j: int| 0 <= j < r@.len() implies r@[j] < x by {
                    let k = choose|k: int| 0 <= k < i && #[trigger] w@[k] == r@[j];
                    assert(w@[k] < w@[i as int]);
                }
            }
            r.push(x);
            proof {
                assert forall|j: int| #![trigger r@[j]] 0 <= j < r@.len() implies exists|k: int| 0 <= k < i + 1 && #[trigger] w@[k] == r@[j] by {
                    if j < r@.len() - 1 {
                        let k = choose|k: int| 0 <= k < i && #[trigger] w@[k] == r@[j];
                        assert(w@[k] == r@[j]);
                    } else {
                        assert(w@[i as int] == r@[j]);
                    }
                }
                assert forall|k: int| 0 <= k < i + 1 && #[trigger] w@[k] % p != 0 implies r@.contains(w@[k]) by {
                    if k == i {
                        assert(r@[r@.len() - 1] == x);
                    } else {
                        assert(old_r.contains(w@[k]));
                        let j = choose|j: int| 0 <= j < old_r.len() && old_r[j] == w@[k];
                        assert(r@[j] == old_r[j]);
                    }
                }
            }
        } else {
            proof {
                assert forall|j: int| #![trigger r@[j]] 0 <= j < r@.len() implies exists|k: int| 0 <= k < i + 1 && #[trigger] w@[k] == r@[j] by {
                    let k = choose|k: int| 0 <= k < i && #[trigger] w@[k] == r@[j];
                    assert(w@[k] == r@[j]);
                }
            }
        }
        i = i + 1;
    }
    proof {
        assert(w@[0] % p != 0);
        assert forall|j: int| 0 <= j < r@.len() implies 1 <= #[trigger] r@[j] <= b && rough(r@[j] as int, p + 1) by {
            let k = choose|k: int| 0 <= k < w@.len() && #[trigger] w@[k] == r@[j];
            assert(rough(w@[k] as int, p as int));
            assert forall|q: int| 2 <= q < p + 1 && is_prime(q) implies !#[trigger] divides(q, r@[j] as int) by {
                if q < p {
                    assert(!divides(q, w@[k] as int));
                }
            }
        }
        let p1 = p + 1;
        assert forall|x: int| 1 <= x <= b && #[trigger] rough(x, p1) implies r@.contains(x as usize) by {
            assert(!divides(p as int, x));
            assert forall|q: int| 2 <= q < p && is_prime(q) implies !#[trigger] divides(q, x) by {
                assert(!divides(q, x));
            }
            assert(rough(x, p as int));
            assert(w@.contains(x as usize));
            let k = choose|k: int| 0 <= k < w@.len() && w@[k] == x as usize;
            assert(w@[k] % p != 0);
            assert(r@.contains(w@[k]));
        }
    }
    r
}

/// The element after 1 in the wheel for `p + 1` is the next prime after `p`, and
/// the wheel is also the one for that prime.
pub proof fn lemma_next_prime(w: Seq<usize>, b: int, p: int)
    requires
        is_wheel(w, b, p + 1),
        is_prime(p),
        w.len() >= 2,
        w[0] == 1,
    ensures
        is_prime(w[1] as int),
        w[1] > p,
        forall|q: int| p < q < w[1] ==> !is_prime(q),
        is_wheel(w, b, w[1] as int),
{
    let x = w[1] as int;
    assert(w[0] < w[1]);
    lemma_lpf_of(x);
    let q = lpf_of(x);
    if q < x {
        if q < p + 1 {
            assert(!divides(q, x));
        }
        lemma_prime_rough(q, p + 1);
        let k = choose|k: int| 0 <= k < w.len() && w[k] == q as usize;
        if k >= 2 {
            assert(w[1] < w[k]);
        }
    }
    assert(is_prime(x));
    lemma_rough_prime_at_least(x, p + 1);
    assert forall|r: int| p < r < x implies !is_prime(r) by {
        if is_prime(r) {
            lemma_prime_rough(r, p + 1);
            let k = choose|k: int| 0 <= k < w.len() && w[k] == r as usize;
            if k >= 2 {
                assert(w[1] < w[k]);
            }
        }
    }
    let p1 = p + 1;
    assert forall|y: int| #[trigger] rough(y, p1) == rough(y, x) by {
        if rough(y, p1) {
            assert forall|q2: int| 2 <= q2 < x && is_prime(q2) implies !#[trigger] divides(q2, y) by {
                assert(q2 < p + 1);
            }
        }
    }
    assert forall|i: int| 0 <= i < w.len() implies 1 <= #[trigger] w[i] <= b && rough(w[i] as int, x) by {
        assert(rough(w[i] as int, p + 1));
    }
    assert forall|y: int| 1 <= y <= b && #[trigger] rough(y, x) implies w.contains(y as usize) by {
        assert(rough(y, p1));
    }
}

/// Whether `p * p <= n`, computed without overflow.
fn square_le(p: usize, n: usize) -> (r: bool)
    requires
        p >= 1,
    ensures
        r == (p * p <= n),
{
    proof {
        crate::number::lemma_le_div_iff_square_le(p as int, n as int);
    }
    p <= n / p
}

/// Pritchard's wheel sieve: the primes up to `n`.
pub fn wheel_sieve(n: usize) -> (r: Vec<usize>)
    requires
        n < usize::MAX,
    ensures
        is_prime_seq(r@, 0, n as int),
{
    if n <= 1 {
        proof {
            assert forall|q: int| 0 < q <= n && is_prime(q) implies Seq::<usize>::empty().contains(q as usize) by {
                assert(false);
            }
        }
        return Vec::new();
    }
    let mut out: Vec<usize> = Vec::new();
    out.push(2);
    let mut p: usize = 3;
    let mut w: Vec<usize> = Vec::new();
    w.push(1);
    let mut l: usize = 2;
    proof {
        crate::prime_spec::lemma_primes_upto_3();
        assert forall|q: int| 0 < q <= 2 && is_prime(q) implies out@.contains(q as usize) by {
            assert(out@[0] == 2);
        }
        assert(turns_with(2, 3)) by {
            assert forall|q: int| 2 <= q < 3 && is_prime(q) implies #[trigger] divides(q, 2) by {
                assert(q == 2);
            }
        }
        assert forall|x: int| 1 <= x <= 2 && rough(x, 3) implies w@.contains(x as usize) by {
            if x == 2 {
                assert(divides(2, 2));
            }
            assert(w@[0] == 1);
        }
        assert(rough(1, 3)) by {
            assert forall|q: int| 2 <= q < 3 && is_prime(q) implies !#[trigger] divides(q, 1) by {
            }
        }
    }
    while square_le(p, n)
        invariant
            n < usize::MAX,
            2 <= n,
            3 <= p <= n + 1,
            is_prime(p as int),
            is_prime_seq(out@, 0, p - 1),
            2 <= l <= n,
            l == n || turns_with(l as int, p as int),
            is_wheel(w@, l as int, p as int),
            w@.len() >= 1,
            w@[0] == 1,
        decreases n + 1 - p,
    {
        proof {
            crate::number::lemma_le_div_iff_mul_le(l as int, p as int, n as int);
            assert(l * p == p * l) by (nonlinear_arith);
        }
        let bound: usize = if l > n / p { n } else { p * l };
        proof {
            assert(l <= bound) by (nonlinear_arith)
                requires
                    p >= 3,
                    l <= n,
                    bound == n || bound == p * l,
            ;
            if l == n {
                assert(n / p < n) by (nonlinear_arith)
                    requires
                        p >= 3,
                        n >= 2,
                ;
            }
        }
        roll(&mut w, l, bound, Ghost(p as int));
        let w2 = strike(&w, p, Ghost(bound as int));
        proof {
            lemma_prime_seq_push(out@, 0, p - 1, p);
        }
        out.push(p);
        let ghost old_l = l;
        l = bound;
        if w2.len() < 2 {
            // the next prime lies below `bound` (Bertrand); this arm only makes the
            // contract independent of that fact
            return e_sieve(n);
        }
        let np = w2[1];
        proof {
            lemma_next_prime(w2@, bound as int, p as int);
            assert forall|q: int| p < q <= np - 1 implies !is_prime(q) by {}
            if l != n {
                assert(bound == p * old_l);
                assert(old_l != n);
                assert forall|q: int| 2 <= q < np && is_prime(q) implies #[trigger] divides(q, l as int) by {
                    if q < p {
                        assert(divides(q, old_l as int));
                        lemma_mul_divides(old_l as int, p as int);
                        lemma_divides_trans(q, old_l as int, l as int);
                    } else {
                        assert(q == p);
                        lemma_mul_divides(p as int, old_l as int);
                    }
                }
            }
            assert(is_prime_seq(out@, 0, np - 1)) by {
                assert forall|q: int| 0 < q <= np - 1 && is_prime(q) implies out@.contains(q as usize) by {
                    if q > p {
                        assert(!is_prime(q));
                    }
                }
            }
        }
        p = np;
        w = w2;
    }
    roll(&mut w, l, n, Ghost(p as int));
    let ghost head = out@;
    let mut i: usize = 1;
    while i < w.len()
        invariant
            1 <= i <= w@.len(),
            out@ == head + w@.subrange(1, i as int),
        decreases w@.len() - i,
    {
        out.push(w[i]);
        proof {
            assert(out@ =~= head + w@.subrange(1, i + 1));
        }
        i = i + 1;
    }
    proof {
        let tail = w@.subrange(1, w@.len() as int);
        assert(p * p > n);
        assert forall|a: int, c: int| 0 <= a < c < tail.len() implies tail[a] < tail[c] by {
            assert(tail[a] == w@[a + 1] && tail[c] == w@[c + 1]);
        }
        assert forall|k: int| 0 <= k < tail.len() implies p - 1 < #[trigger] tail[k] <= n && is_prime(tail[k] as int) by {
            assert(tail[k] == w@[k + 1]);
            assert(w@[0] < w@[k + 1]);
            lemma_rough_small_is_prime(tail[k] as int, p as int);
            lemma_rough_prime_at_least(tail[k] as int, p as int);
        }
        assert forall|q: int| p - 1 < q <= n && is_prime(q) implies tail.contains(q as usize) by {
            lemma_prime_rough(q, p as int);
            let k = choose|k: int| 0 <= k < w@.len() && w@[k] == q as usize;
            assert(k != 0);
            assert(tail[k - 1] == w@[k]);
        }
        lemma_prime_seq_concat(head, tail, 0, p - 1, n as int);
    }
    out
}

} // verus!

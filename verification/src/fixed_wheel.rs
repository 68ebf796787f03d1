//! The segmented fixed-wheel sieve: the candidates are the integers that none of
//! the first few primes divides, walked along a precomputed wheel by its gaps; the
//! segments `(l, l + delta]` of the range above `delta = isqrt(n)` are sieved by
//! the remaining primes up to `delta`, each striking its multiples `p * f` with
//! `f` walked along the same wheel.

use vstd::prelude::*;
use vstd::arithmetic::div_mod::lemma_fundamental_div_mod;
use crate::bits::{bv_from_elem, bv_at, bv_set, bv_set_all, bitvec_bits};
use crate::number::isqrt;
use crate::prime_spec::{
    is_prime, divides, is_prime_seq, lemma_mul_divides, lemma_divides_trans,
    lemma_composite_has_small_prime_factor, lemma_prime_seq_push, lemma_prime_seq_concat,
};
use crate::prime_sieves::{e_sieve, subtask_ranges, USED_CPU_CORES_NUM};
use crate::wheel::{
    rough, is_wheel, turns_with, roll, strike, lemma_next_prime, lemma_rough_shift,
    lemma_prime_rough, lemma_rough_small_is_prime, lemma_rough_prime_at_least,
};
use crate::laws::lemma_increasing_unique;

verus! {

/// The largest product of primes that a wheel spans.
pub const WHEEL_CAP: usize = 1048576;

/// The wheel of the first primes: the integers of `[1, prod]` that none of them
/// divides, the gaps from each to the next (the last one wrapping round to
/// `prod + 1`), the primes themselves and the prime after them.
pub struct WStruct {
    pub wheel: Vec<usize>,
    pub wheel_gap: Vec<usize>,
    pub prod: usize,
    pub primes: Vec<usize>,
    pub next_prime: usize,
}

impl WStruct {
    /// The parts of the wheel agree with each other.
    pub open spec fn ok(self) -> bool {
        let w = self.wheel@;
        let g = self.wheel_gap@;
        let q = self.next_prime as int;
        let m = self.prod as int;
        &&& is_prime(q)
        &&& q >= 3
        &&& 2 <= m <= WHEEL_CAP
        &&& is_wheel(w, m, q)
        &&& turns_with(m, q)
        &&& w.len() >= 2
        &&& w[0] == 1
        &&& g.len() == w.len()
        &&& forall|i: int| 0 <= i < w.len() - 1 ==> #[trigger] g[i] == w[i + 1] - w[i]
        &&& g[w.len() - 1] == m + 1 - w[w.len() - 1]
        &&& is_prime_seq(self.primes@, 0, q - 1)
    }

    /// `f` sits on the wheel at `fi`: it is `w[fi]` plus a multiple of `prod`.
    pub open spec fn at_wheel(self, f: int, fi: int) -> bool {
        &&& 0 <= fi < self.wheel@.len()
        &&& f >= self.wheel@[fi]
        &&& (f - self.wheel@[fi]) % (self.prod as int) == 0
    }
}

/// The primes up to `ha` are the first ones of the primes up to `hb >= ha`.
pub proof fn lemma_prime_seq_prefix(a: Seq<usize>, b: Seq<usize>, ha: int, hb: int)
    requires
        is_prime_seq(a, 0, ha),
        is_prime_seq(b, 0, hb),
        ha <= hb,
    ensures
        a.len() <= b.len(),
        a == b.take(a.len() as int),
    decreases b.len(),
{
    if b.len() == 0 {
        if a.len() > 0 {
            assert(b.contains(a[0]));
        }
        assert(a =~= b.take(0));
    } else {
        let x = b.last();
        if x <= ha {
            assert forall|y: usize| a.contains(y) <==> b.contains(y) by {
                if a.contains(y) {
                    let i = choose|i: int| 0 <= i < a.len() && a[i] == y;
                    assert(0 < a[i] <= ha && is_prime(a[i] as int));
                }
                if b.contains(y) {
                    let i = choose|i: int| 0 <= i < b.len() && b[i] == y;
                    if i < b.len() - 1 {
                        assert(b[i] < b[b.len() - 1]);
                    }
                    assert(0 < b[i] <= ha && is_prime(b[i] as int));
                }
            }
            lemma_increasing_unique(a, b);
            assert(b =~= b.take(b.len() as int));
        } else {
            let b2 = b.drop_last();
            assert forall|i: int, j: int| 0 <= i < j < b2.len() implies b2[i] < b2[j] by {
                assert(b2[i] == b[i] && b2[j] == b[j]);
            }
            assert forall|i: int| 0 <= i < b2.len() implies 0 < #[trigger] b2[i] <= x - 1 && is_prime(b2[i] as int) by {
                assert(b2[i] == b[i]);
                assert(b[i] < b[b.len() - 1]);
            }
            assert forall|p: int| 0 < p <= x - 1 && is_prime(p) implies b2.contains(p as usize) by {
                let i = choose|i: int| 0 <= i < b.len() && b[i] == p as usize;
                assert(i != b.len() - 1);
                assert(b2[i] == b[i]);
            }
            lemma_prime_seq_prefix(a, b2, ha, x - 1);
            assert(a =~= b.take(a.len() as int)) by {
                assert forall|i: int| 0 <= i < a.len() implies a[i] == b.take(a.len() as int)[i] by {
                    assert(b2.take(a.len() as int)[i] == b2[i]);
                    assert(b2[i] == b[i]);
                }
            }
        }
    }
}

/// A multiple of a period is a period.
proof fn lemma_turns_with_multiple(m: int, c: int, q: int)
    requires
        turns_with(m, q),
        m >= 1,
        c >= 0,
    ensures
        turns_with(c * m, q),
{
    assert forall|r: int| 2 <= r < q && is_prime(r) implies #[trigger] divides(r, c * m) by {
        assert(divides(r, m));
        if c == 0 {
            assert(c * m == 0);
        } else {
            lemma_mul_divides(m, c);
            assert(m * c == c * m) by (nonlinear_arith);
            lemma_divides_trans(r, m, c * m);
        }
    }
}

/// Moving along the wheel: from `f` at `fi`, the next integer that none of the
/// wheel's primes divides is `f + gap[fi]`, at the next place of the wheel.
pub proof fn lemma_wheel_step(t: WStruct, f: int, fi: int)
    requires
        t.ok(),
        t.at_wheel(f, fi),
    ensures
        rough(f, t.next_prime as int),
        t.wheel_gap@[fi] >= 1,
        t.at_wheel(f + t.wheel_gap@[fi], (fi + 1) % (t.wheel@.len() as int)),
        forall|y: int| f < y < f + t.wheel_gap@[fi] ==> !#[trigger] rough(y, t.next_prime as int),
{
    let w = t.wheel@;
    let g = t.wheel_gap@;
    let q = t.next_prime as int;
    let m = t.prod as int;
    let len = w.len() as int;
    let base = f - w[fi];
    lemma_fundamental_div_mod(base, m);
    let c = base / m;
    assert(base == m * c);
    assert(c >= 0) by (nonlinear_arith)
        requires
            base == m * c,
            base >= 0,
            m >= 2,
    ;
    assert(base == c * m) by (nonlinear_arith)
        requires
            base == m * c,
    ;
    lemma_turns_with_multiple(m, c, q);
    lemma_rough_shift(w[fi] as int, base, q);
    if fi < len - 1 {
        assert(g[fi] == w[fi + 1] - w[fi]);
        assert(w[fi] < w[fi + 1]);
        assert((fi + 1) % len == fi + 1) by {
            vstd::arithmetic::div_mod::lemma_small_mod((fi + 1) as nat, len as nat);
        }
        assert forall|y: int| f < y < f + g[fi] implies !#[trigger] rough(y, q) by {
            lemma_rough_shift(y - base, base, q);
            if rough(y, q) {
                let z = y - base;
                assert(1 <= z <= m);
                let k = choose|k: int| 0 <= k < w.len() && w[k] == z as usize;
                if k <= fi {
                    if k < fi {
                        assert(w[k] < w[fi]);
                    }
                } else if k > fi + 1 {
                    assert(w[fi + 1] < w[k]);
                }
            }
        }
    } else {
        assert(fi == len - 1);
        assert((fi + 1) % len == 0) by {
            vstd::arithmetic::div_mod::lemma_mod_self_0(len);
        }
        let nf = f + g[fi];
        assert(nf == base + m + 1);
        assert(nf - w[0] == (c + 1) * m) by (nonlinear_arith)
            requires
                nf == base + m + 1,
                base == c * m,
                w[0] == 1,
        ;
        vstd::arithmetic::div_mod::lemma_mod_multiples_basic(c + 1, m);
        assert(w[fi] <= m);
        // `prod` itself is divided by every wheel prime, 2 among them
        assert(!rough(m, q)) by {
            crate::prime_spec::lemma_primes_upto_3();
            assert(divides(2, m));
        }
        assert forall|y: int| f < y < nf implies !#[trigger] rough(y, q) by {
            lemma_rough_shift(y - base, base, q);
            if rough(y, q) {
                let z = y - base;
                assert(w[fi] < z <= m);
                if z < m {
                    let k = choose|k: int| 0 <= k < w.len() && w[k] == z as usize;
                    if k < fi {
                        assert(w[k] < w[fi]);
                    }
                }
            }
        }
    }
}

/// `m * c - 1` leaves the remainder `r - 1` on division by `r`, for `r >= 2`
/// dividing `m * c`: no such `r` divides it.
proof fn lemma_not_divides_pred(r: int, x: int)
    requires
        r >= 2,
        x >= 1,
        divides(r, x),
    ensures
        !divides(r, x - 1),
{
    lemma_fundamental_div_mod(x, r);
    let c = x / r;
    assert(x == c * r) by (nonlinear_arith)
        requires
            x == r * c + x % r,
            x % r == 0,
    ;
    assert(x - 1 == (c - 1) * r + (r - 1)) by (nonlinear_arith)
        requires
            x == c * r,
    ;
    vstd::arithmetic::div_mod::lemma_fundamental_div_mod_converse_mod(x - 1, r, c - 1, r - 1);
}

/// The last element of a wheel is `prod - 1`.
proof fn lemma_wheel_last(t: WStruct)
    requires
        t.ok(),
    ensures
        t.wheel@[t.wheel@.len() - 1] == t.prod - 1,
        !rough(t.prod as int, t.next_prime as int),
{
    let w = t.wheel@;
    let q = t.next_prime as int;
    let m = t.prod as int;
    crate::prime_spec::lemma_primes_upto_3();
    assert(divides(2, m));
    assert(rough(m - 1, q)) by {
        assert forall|r: int| 2 <= r < q && is_prime(r) implies !#[trigger] divides(r, m - 1) by {
            assert(divides(r, m));
            lemma_not_divides_pred(r, m);
        }
    }
    let k = choose|k: int| 0 <= k < w.len() && w[k] == (m - 1) as usize;
    let last = w.len() - 1;
    if k < last {
        assert(w[k] < w[last]);
        assert(w[last] <= m);
        assert(w[last] == m);
    }
}

/// The least index whose element is at least `x`, in a strictly increasing
/// sequence whose last element is at least `x`.
fn first_not_below(w: &Vec<usize>, x: usize) -> (i: usize)
    requires
        w@.len() >= 1,
        forall|a: int, b: int| 0 <= a < b < w@.len() ==> w@[a] < w@[b],
        w@[w@.len() - 1] >= x,
    ensures
        i < w@.len(),
        w@[i as int] >= x,
        forall|j: int| 0 <= j < i ==> w@[j] < x,
{
    let mut lo: usize = 0;
    let mut hi: usize = w.len() - 1;
    while lo < hi
        invariant
            lo <= hi < w@.len(),
            forall|a: int, b: int| 0 <= a < b < w@.len() ==> w@[a] < w@[b],
            w@[hi as int] >= x,
            forall|j: int| 0 <= j < lo ==> w@[j] < x,
        decreases hi - lo,
    {
        let mid = lo + (hi - lo) / 2;
        if w[mid] < x {
            lo = mid + 1;
        } else {
            hi = mid;
        }
    }
    lo
}

/// The first integer at least `raw` that none of the wheel's primes divides, with
/// its place on the wheel.
fn locate_in_wheel(t: &WStruct, raw: usize) -> (r: (usize, usize))
    requires
        t.ok(),
        1 <= raw <= usize::MAX - WHEEL_CAP,
    ensures
        t.at_wheel(r.0 as int, r.1 as int),
        r.0 >= raw,
        r.0 < raw + t.prod,
        rough(r.0 as int, t.next_prime as int),
        forall|y: int| raw <= y < r.0 ==> !#[trigger] rough(y, t.next_prime as int),
{
    proof {
        lemma_wheel_last(*t);
    }
    let prod_rem = raw % t.prod;
    proof {
        vstd::arithmetic::div_mod::lemma_mod_decreases(raw as nat, t.prod as nat);
    }
    let prod_base = raw - prod_rem;
    let i = first_not_below(&t.wheel, prod_rem);
    let v0 = t.wheel[i];
    proof {
        let w = t.wheel@;
        let q = t.next_prime as int;
        let m = t.prod as int;
        let base = prod_base as int;
        let rw = raw as int;
        lemma_fundamental_div_mod(rw, m);
        let c = rw / m;
        assert(prod_rem == rw % m);
        assert(base == c * m) by (nonlinear_arith)
            requires
                rw == m * c + rw % m,
                base == rw - rw % m,
        ;
        assert(c >= 0) by (nonlinear_arith)
            requires
                base == c * m,
                base >= 0,
                m >= 2,
        ;
        vstd::arithmetic::div_mod::lemma_mod_multiples_basic(c, m);
        lemma_turns_with_multiple(m, c, q);
        lemma_rough_shift(v0 as int, base, q);
        assert forall|y: int| raw <= y < base + v0 implies !#[trigger] rough(y, q) by {
            lemma_rough_shift(y - base, base, q);
            if rough(y, q) {
                let z = y - base;
                if z == 0 {
                    assert(c >= 1) by (nonlinear_arith)
                        requires
                            base == c * m,
                            base >= 1,
                            m >= 2,
                            c >= 0,
                    ;
                    assert(divides(2, m));
                    assert(divides(m, base)) by {
                        lemma_mul_divides(m, c);
                        assert(m * c == c * m) by (nonlinear_arith);
                    }
                    lemma_divides_trans(2, m, base);
                    crate::prime_spec::lemma_primes_upto_3();
                    assert(!divides(2, y));
                } else {
                    assert(1 <= z <= m);
                    let k = choose|k: int| 0 <= k < w.len() && w[k] == z as usize;
                    if k >= i {
                        if k > i {
                            assert(w[i as int] < w[k]);
                        }
                    }
                }
            }
        }
    }
    (prod_base + v0, i)
}

/// The wheel of the first `k` primes, or of fewer where their product would pass
/// `WHEEL_CAP`: each round rolls the wheel over the next prime and strikes its
/// multiples out.
pub fn wheel_struct(k: usize) -> (t: WStruct)
    requires
        k >= 2,
    ensures
        t.ok(),
        1 <= t.primes@.len() <= k,
{
    let mut w: Vec<usize> = Vec::new();
    w.push(1);
    let mut prod: usize = 2;
    let mut p: usize = 3;
    let mut primes: Vec<usize> = Vec::new();
    primes.push(2);
    proof {
        crate::prime_spec::lemma_primes_upto_3();
        assert(primes@ =~= seq![2usize]);
        assert(turns_with(2, 3)) by {
            assert forall|q: int| 2 <= q < 3 && is_prime(q) implies #[trigger] divides(q, 2) by {
                assert(q == 2);
            }
        }
        assert forall|x: int| 1 <= x <= 2 && rough(x, 3) implies w@.contains(x as usize) by {
            if x == 2 {
                assert(divides(2, 2));
            }
            assert(w@[0] == 1);
        }
        assert(rough(1, 3)) by {
            assert forall|q: int| 2 <= q < 3 && is_prime(q) implies !#[trigger] divides(q, 1) by {}
        }
    }
    while primes.len() < k && prod <= WHEEL_CAP / p
        invariant
            k >= 2,
            is_wheel(w@, prod as int, p as int),
            turns_with(prod as int, p as int),
            is_prime(p as int),
            p >= 3,
            w@.len() >= 1,
            w@[0] == 1,
            is_prime_seq(primes@, 0, p - 1),
            1 <= primes@.len() <= k,
            2 <= prod <= WHEEL_CAP,
            w@.len() >= 2 || (prod == 2 && p == 3 && primes@.len() == 1),
        decreases k - primes@.len(),
    {
        proof {
            crate::number::lemma_le_div_iff_mul_le(prod as int, p as int, WHEEL_CAP as int);
            assert(prod * p == p * prod) by (nonlinear_arith);
        }
        let bound = p * prod;
        proof {
            assert(prod <= bound) by (nonlinear_arith)
                requires
                    bound == p * prod,
                    p >= 3,
            ;
        }
        roll(&mut w, prod, bound, Ghost(p as int));
        let w2 = strike(&w, p, Ghost(bound as int));
        proof {
            // `p * prod - 1` is on the new wheel, after 1
            let x = bound - 1;
            assert forall|r: int| 2 <= r < p + 1 && is_prime(r) implies !#[trigger] divides(r, x) by {
                if r < p {
                    assert(divides(r, prod as int));
                    lemma_mul_divides(prod as int, p as int);
                    assert(prod * p == p * prod) by (nonlinear_arith);
                    lemma_divides_trans(r, prod as int, bound as int);
                } else {
                    lemma_mul_divides(p as int, prod as int);
                }
                lemma_not_divides_pred(r, bound as int);
            }
            assert(x >= 5) by (nonlinear_arith)
                requires
                    x == p * prod - 1,
                    p >= 3,
                    prod >= 2,
            ;
            let p1 = p + 1;
            assert(rough(x, p1));
            let kk = choose|kk: int| 0 <= kk < w2@.len() && w2@[kk] == x as usize;
            assert(kk != 0);
            lemma_prime_seq_push(primes@, 0, p - 1, p);
        }
        primes.push(p);
        let np = w2[1];
        proof {
            lemma_next_prime(w2@, bound as int, p as int);
            assert forall|q: int| 2 <= q < np && is_prime(q) implies #[trigger] divides(q, bound as int) by {
                if q < p {
                    assert(divides(q, prod as int));
                    lemma_mul_divides(prod as int, p as int);
                    assert(prod * p == p * prod) by (nonlinear_arith);
                    lemma_divides_trans(q, prod as int, bound as int);
                } else {
                    assert(q == p);
                    lemma_mul_divides(p as int, prod as int);
                }
            }
            assert(is_prime_seq(primes@, 0, np - 1)) by {
                assert forall|q: int| 0 < q <= np - 1 && is_prime(q) implies primes@.contains(q as usize) by {
                    if q > p {
                        assert(!is_prime(q));
                    }
                }
            }
        }
        prod = bound;
        p = np;
        w = w2;
    }
    proof {
        if w@.len() < 2 {
            assert(prod == 2 && p == 3);
            assert(WHEEL_CAP / 3 >= 2);
        }
    }
    let len = w.len();
    let mut wg: Vec<usize> = Vec::new();
    let mut i: usize = 0;
    while i + 1 < len
        invariant
            len == w@.len(),
            len >= 2,
            is_wheel(w@, prod as int, p as int),
            wg@.len() == i,
            i + 1 <= len,
            forall|j: int| 0 <= j < i ==> #[trigger] wg@[j] == w@[j + 1] - w@[j],
        decreases len - i,
    {
        proof {
            assert(w@[i as int] < w@[i + 1]);
        }
        wg.push(w[i + 1] - w[i]);
        i = i + 1;
    }
    proof {
        assert(w@[len - 1] <= prod);
    }
    wg.push(prod + 1 - w[len - 1]);
    WStruct { wheel: w, wheel_gap: wg, prod, primes, next_prime: p }
}

/// Every gap of the wheel is at most `prod`.
proof fn lemma_gap_bound(t: WStruct, i: int)
    requires
        t.ok(),
        0 <= i < t.wheel@.len(),
    ensures
        1 <= t.wheel_gap@[i] <= t.prod,
{
    let w = t.wheel@;
    if i < w.len() - 1 {
        assert(t.wheel_gap@[i] == w[i + 1] - w[i]);
        assert(w[i] < w[i + 1]);
        assert(w[i + 1] <= t.prod);
    } else {
        assert(w[i] >= 1);
        assert(w[i] <= t.prod);
    }
}

/// `x` is `p * f` for some `f` that none of the primes below `q` divides.
pub open spec fn hit(x: int, p: int, q: int) -> bool {
    x % p == 0 && rough(x / p, q)
}

/// Some sieving prime `pris[j]`, `k <= j < upto`, hits `x`.
pub open spec fn hit_by(pris: Seq<usize>, k: int, upto: int, x: int, q: int) -> bool {
    exists|j: int| k <= j < upto && #[trigger] hit(x, pris[j] as int, q)
}

/// The slots of a segment `(l, end]`: slot `t` is set unless `l + t` lies in the
/// segment and `struck` holds of it.
pub open spec fn segment_bits(bits: Seq<bool>, l: int, end: int, struck: spec_fn(int) -> bool) -> bool {
    forall|t: int| 0 <= t < bits.len() ==> #[trigger] bits[t] == !(l < l + t <= end && struck(l + t))
}

/// Strikes the multiples `p * f` up to `end` out of the segment `(l, end]`,
/// walking `f` along the wheel from `(f, fi)`; returns where the walk stops.
fn strike_multiples(
    t: &WStruct,
    p: usize,
    f: usize,
    fi: usize,
    l: usize,
    end: usize,
    bits: &mut bit_vec::BitVec,
    Ghost(prior): Ghost<spec_fn(int) -> bool>,
) -> (r: (usize, usize))
    requires
        t.ok(),
        t.at_wheel(f as int, fi as int),
        p >= 2,
        p * f > l,
        f <= l / p + t.prod + 1,
        forall|g: int| #[trigger] rough(g, t.next_prime as int) && g < f ==> p * g <= l,
        l <= end,
        end < l + bitvec_bits(*old(bits)).len(),
        end <= usize::MAX / 2,
        segment_bits(bitvec_bits(*old(bits)), l as int, end as int, prior),
    ensures
        t.at_wheel(r.0 as int, r.1 as int),
        p * r.0 > end,
        r.0 <= end / p + t.prod + 1,
        forall|g: int| #[trigger] rough(g, t.next_prime as int) && g < r.0 ==> p * g <= end,
        bitvec_bits(*final(bits)).len() == bitvec_bits(*old(bits)).len(),
        segment_bits(bitvec_bits(*final(bits)), l as int, end as int,
            |x: int| prior(x) || hit(x, p as int, t.next_prime as int)),
{
    let ghost q = t.next_prime as int;
    let ghost len = bitvec_bits(*bits).len();
    let ghost f0 = f;
    let mut f = f;
    let mut fi = fi;
    proof {
        crate::number::lemma_le_div_iff_mul_le(f as int, p as int, end as int);
        assert(f * p == p * f) by (nonlinear_arith);
        vstd::arithmetic::div_mod::lemma_div_is_ordered(l as int, end as int, p as int);
        let bb = bitvec_bits(*bits);
        assert forall|tt: int| 0 <= tt < bb.len() implies #[trigger] bb[tt] == !(l < l + tt <= end
            && (prior(l + tt) || (hit(l + tt, p as int, q) && l + tt < p * f))) by {
            let y = l + tt;
            if hit(y, p as int, q) && l < y < p * f {
                lemma_fundamental_div_mod(y, p as int);
                let g = y / (p as int);
                assert(y == p * g);
                assert(g < f) by (nonlinear_arith)
                    requires
                        y == p * g,
                        y < p * f,
                        p >= 2,
                ;
                assert(p * g <= l);
            }
        }
    }
    while f <= end / p
        invariant
            t.ok(),
            q == t.next_prime,
            t.at_wheel(f as int, fi as int),
            p >= 2,
            p * f > l,
            l <= end,
            end < l + len,
            end <= usize::MAX / 2,
            bitvec_bits(*bits).len() == len,
            forall|g: int| #[trigger] rough(g, q) && g < f ==> p * g <= end,
            (f <= end / p) == (p * f <= end),
            f <= end / p + t.prod + 1,
            segment_bits(bitvec_bits(*bits), l as int, end as int,
                |x: int| prior(x) || (hit(x, p as int, q) && x < p * f)),
        decreases end + t.prod + 2 - f,
    {
        proof {
            lemma_wheel_step(*t, f as int, fi as int);
            lemma_gap_bound(*t, fi as int);
            assert(p * f <= end);
        }
        let x = p * f;
        bv_set(bits, x - l, false);
        let ghost old_f = f;
        let wl = t.wheel.len();
        f = f + t.wheel_gap[fi];
        fi = (fi + 1) % wl;
        proof {
            vstd::arithmetic::div_mod::lemma_div_multiples_vanish(old_f as int, p as int);
            vstd::arithmetic::div_mod::lemma_mod_multiples_basic(old_f as int, p as int);
            assert(old_f * p == p * old_f) by (nonlinear_arith);
            assert(hit(x as int, p as int, q));
            assert(p * f > p * old_f) by (nonlinear_arith)
                requires
                    f > old_f,
                    p >= 2,
            ;
            let bb = bitvec_bits(*bits);
            assert forall|tt: int| 0 <= tt < bb.len() implies #[trigger] bb[tt] == !(l < l + tt <= end
                && (prior(l + tt) || (hit(l + tt, p as int, q) && l + tt < p * f))) by {
                let y = l + tt;
                if tt != x - l && hit(y, p as int, q) && p * old_f <= y < p * f {
                    lemma_fundamental_div_mod(y, p as int);
                    let g = y / (p as int);
                    assert(y == p * g);
                    assert(old_f <= g < f) by (nonlinear_arith)
                        requires
                            y == p * g,
                            p * old_f <= y < p * f,
                            p >= 2,
                    ;
                    assert(g != old_f);
                    assert(!rough(g, q));
                }
            }
            assert forall|g: int| #[trigger] rough(g, q) && g < f implies p * g <= end by {
                if g > old_f {
                    assert(!rough(g, q));
                }
                assert(p * g <= p * old_f) by (nonlinear_arith)
                    requires
                        g <= old_f,
                        p >= 2,
                ;
            }
            crate::number::lemma_le_div_iff_mul_le(f as int, p as int, end as int);
            assert(f * p == p * f) by (nonlinear_arith);
        }
    }
    (f, fi)
}

/// The sieving primes `pris[k..np]` lie in `[q, l0]` and take in every prime `p >= q`
/// with `p * p <= l1`.
pub open spec fn sieving_ok(pris: Seq<usize>, k: int, np: int, q: int, l0: int, l1: int) -> bool {
    &&& 0 <= k <= np <= pris.len()
    &&& forall|j: int| k <= j < np ==> is_prime(#[trigger] pris[j] as int) && q <= pris[j] <= l0
    &&& forall|p: int| #![trigger is_prime(p)] is_prime(p) && q <= p && p * p <= l1
            ==> exists|j: int| k <= j < np && #[trigger] pris[j] == p
}

/// `f`, at `fi` on the wheel, is where the walk of the multiples of `p` stands
/// once everything up to `l` is sieved: the least `f` off the wheel's primes with
/// `p * f > l`.
pub open spec fn factor_ok(t: WStruct, p: int, f: int, fi: int, l: int) -> bool {
    &&& t.at_wheel(f, fi)
    &&& p * f > l
    &&& f <= l / p + t.prod + 1
    &&& forall|g: int| #[trigger] rough(g, t.next_prime as int) && g < f ==> p * g <= l
}

/// Raising the upper bound over a stretch without primes keeps a list of primes.
proof fn lemma_prime_seq_extend(s: Seq<usize>, lo: int, a: int, b: int)
    requires
        is_prime_seq(s, lo, a),
        a <= b,
        forall|x: int| a < x <= b ==> !is_prime(x),
    ensures
        is_prime_seq(s, lo, b),
{
}

/// Lowering the upper bound over a stretch without primes keeps a list of primes.
proof fn lemma_prime_seq_restrict(s: Seq<usize>, lo: int, a: int, b: int)
    requires
        is_prime_seq(s, lo, b),
        a <= b,
        forall|x: int| a < x <= b ==> !is_prime(x),
    ensures
        is_prime_seq(s, lo, a),
{
    assert forall|i: int| 0 <= i < s.len() implies lo < #[trigger] s[i] <= a && is_prime(s[i] as int) by {
        assert(lo < s[i] <= b && is_prime(s[i] as int));
    }
}

/// In a segment above `l0`, an integer off the wheel's primes is prime exactly when
/// no sieving prime hits it.
proof fn lemma_segment_prime(t: WStruct, pris: Seq<usize>, k: int, np: int, l0: int, l1: int, v: int)
    requires
        t.ok(),
        sieving_ok(pris, k, np, t.next_prime as int, l0, l1),
        t.next_prime <= l0 + 1,
        rough(v, t.next_prime as int),
        l0 < v <= l1,
    ensures
        is_prime(v) == !hit_by(pris, k, np, v, t.next_prime as int),
{
    let q = t.next_prime as int;
    if is_prime(v) && hit_by(pris, k, np, v, q) {
        let j = choose|j: int| k <= j < np && #[trigger] hit(v, pris[j] as int, q);
        let p = pris[j] as int;
        assert(divides(p, v));
        assert(2 <= p < v);
    }
    if !is_prime(v) {
        assert(v >= 2);
        lemma_composite_has_small_prime_factor(v);
        let p = choose|p: int| is_prime(p) && p * p <= v && #[trigger] divides(p, v);
        if p < q {
            assert(!divides(p, v));
        }
        assert(is_prime(p) && q <= p && p * p <= l1);
        let j = choose|j: int| k <= j < np && #[trigger] pris[j] == p;
        lemma_fundamental_div_mod(v, p);
        let g = v / p;
        assert(v == p * g);
        assert(rough(g, q)) by {
            assert forall|r: int| 2 <= r < q && is_prime(r) implies !#[trigger] divides(r, g) by {
                if divides(r, g) {
                    assert(g >= 1) by (nonlinear_arith)
                        requires
                            v == p * g,
                            v >= 2,
                            p >= 2,
                    ;
                    lemma_mul_divides(g, p);
                    assert(g * p == p * g) by (nonlinear_arith);
                    lemma_divides_trans(r, g, v);
                    assert(!divides(r, v));
                }
            }
        }
        assert(hit(v, pris[j] as int, q));
    }
}

/// The primes of `(l0, l1]`, sieved segment by segment with `delta + 1` slots by the
/// primes `pris[k..np]`, `k` being the number of the wheel's primes; the candidates
/// and the multiples struck are walked along the wheel.
pub fn sieve_subtask(t: &WStruct, pris: &Vec<usize>, np: usize, l0: usize, l1: usize, delta: usize) -> (r: Vec<usize>)
    requires
        t.ok(),
        sieving_ok(pris@, t.primes@.len() as int, np as int, t.next_prime as int, l0 as int, l1 as int),
        t.next_prime <= l0 + 1,
        1 <= delta <= usize::MAX / 4,
        l0 <= usize::MAX / 2,
        l1 <= usize::MAX / 4,
    ensures
        is_prime_seq(r@, l0 as int, l1 as int),
{
    let k = t.primes.len();
    let ghost q = t.next_prime as int;
    let ghost pr = pris@;
    let (mut v, mut vi) = locate_in_wheel(t, l0 + 1);
    let mut factors: Vec<(usize, usize)> = Vec::new();
    let mut i: usize = 0;
    while i < np - k
        invariant
            t.ok(),
            q == t.next_prime,
            pr == pris@,
            k == t.primes@.len(),
            sieving_ok(pr, k as int, np as int, q, l0 as int, l1 as int),
            l0 <= usize::MAX / 2,
            factors@.len() == i,
            i <= np - k,
            forall|ii: int| 0 <= ii < i ==> factor_ok(*t, pr[k + ii] as int, #[trigger] factors@[ii].0 as int,
                factors@[ii].1 as int, l0 as int),
        decreases np - k - i,
    {
        let p = pris[k + i];
        proof {
            assert(is_prime(pr[k + i] as int));
        }
        let f_raw = l0 / p + 1;
        let fp = locate_in_wheel(t, f_raw);
        proof {
            let f = fp.0 as int;
            crate::number::lemma_le_div_iff_mul_le(f, p as int, l0 as int);
            assert(f * p == p * f) by (nonlinear_arith);
            assert forall|g: int| #[trigger] rough(g, q) && g < f implies p * g <= l0 by {
                assert(g < f_raw);
                crate::number::lemma_le_div_iff_mul_le(g, p as int, l0 as int);
                assert(g * p == p * g) by (nonlinear_arith);
            }
        }
        factors.push(fp);
        i = i + 1;
    }

    let mut bits = bv_from_elem(delta + 1, true);
    let mut ans: Vec<usize> = Vec::new();
    let mut l: usize = l0;
    proof {
        assert(forall|x: int| l0 < x <= l0 ==> !is_prime(x));
    }
    while l <= l1
        invariant
            t.ok(),
            q == t.next_prime,
            pr == pris@,
            k == t.primes@.len(),
            sieving_ok(pr, k as int, np as int, q, l0 as int, l1 as int),
            q <= l0 + 1,
            1 <= delta <= usize::MAX / 4,
            l0 <= usize::MAX / 2,
            l1 <= usize::MAX / 4,
            l0 <= l,
            l == l0 || l <= l1 + delta,
            factors@.len() == np - k,
            bitvec_bits(bits) == Seq::new((delta + 1) as nat, |x: int| true),
            is_prime_seq(ans@, l0 as int, if l <= l1 { l as int } else { l1 as int }),
            l <= l1 ==> t.at_wheel(v as int, vi as int),
            l <= l1 ==> rough(v as int, q),
            l <= l1 ==> l < v <= l + t.prod + 1,
            l <= l1 ==> forall|y: int| l < y < v ==> !#[trigger] rough(y, q),
            l <= l1 ==> forall|ii: int| 0 <= ii < np - k ==> factor_ok(*t, pr[k + ii] as int,
                #[trigger] factors@[ii].0 as int, factors@[ii].1 as int, l as int),
        decreases l1 + delta - l,
    {
        let end = if l1 - l < delta { l1 } else { l + delta };

        // strike the multiples of each sieving prime
        let mut i: usize = 0;
        while i < np - k
            invariant
                t.ok(),
                q == t.next_prime,
                pr == pris@,
                k == t.primes@.len(),
                sieving_ok(pr, k as int, np as int, q, l0 as int, l1 as int),
                l0 <= l <= end <= l1,
                end <= l + delta,
                l1 <= usize::MAX / 4,
                factors@.len() == np - k,
                i <= np - k,
                bitvec_bits(bits).len() == delta + 1,
                segment_bits(bitvec_bits(bits), l as int, end as int,
                    |x: int| hit_by(pr, k as int, k + i, x, q)),
                forall|ii: int| 0 <= ii < i ==> factor_ok(*t, pr[k + ii] as int,
                    #[trigger] factors@[ii].0 as int, factors@[ii].1 as int, end as int),
                forall|ii: int| i <= ii < np - k ==> factor_ok(*t, pr[k + ii] as int,
                    #[trigger] factors@[ii].0 as int, factors@[ii].1 as int, l as int),
            decreases np - k - i,
        {
            let p = pris[k + i];
            let (f, fi) = factors[i];
            proof {
                assert(is_prime(pr[k + i] as int));
                assert(factor_ok(*t, pr[k + i] as int, factors@[i as int].0 as int, factors@[i as int].1 as int, l as int));
            }
            let ghost prior = |x: int| hit_by(pr, k as int, k + i, x, q);
            let (nf, nfi) = strike_multiples(t, p, f, fi, l, end, &mut bits, Ghost(prior));
            proof {
                let bb = bitvec_bits(bits);
                assert forall|tt: int| 0 <= tt < bb.len() implies #[trigger] bb[tt]
                    == !(l < l + tt <= end && hit_by(pr, k as int, k + i + 1, l + tt, q)) by {
                    let x = l + tt;
                    if hit(x, p as int, q) {
                        assert(hit(x, pr[k + i] as int, q));
                    }
                    if hit_by(pr, k as int, k + i + 1, x, q) && !hit(x, p as int, q) {
                        let j = choose|j: int| k <= j < k + i + 1 && #[trigger] hit(x, pr[j] as int, q);
                        assert(j < k + i);
                    }
                }
            }
            factors.set(i, (nf, nfi));
            proof {
                assert forall|ii: int| 0 <= ii < i + 1 implies factor_ok(*t, pr[k + ii] as int,
                    #[trigger] factors@[ii].0 as int, factors@[ii].1 as int, end as int) by {
                    if ii == i {
                        assert(factors@[ii] == (nf, nfi));
                    }
                }
            }
            i = i + 1;
        }

        // collect the candidates left in the segment
        proof {
            assert forall|y: int| l < y < v implies !is_prime(y) by {
                if is_prime(y) {
                    lemma_prime_rough(y, q);
                }
            }
            lemma_prime_seq_extend(ans@, l0 as int, l as int, v - 1);
        }
        let wl = t.wheel.len();
        while v <= end
            invariant
                t.ok(),
                q == t.next_prime,
                pr == pris@,
                k == t.primes@.len(),
                sieving_ok(pr, k as int, np as int, q, l0 as int, l1 as int),
                q <= l0 + 1,
                wl == t.wheel@.len(),
                l0 <= l <= end <= l1,
                end <= l + delta,
                l1 <= usize::MAX / 4,
                bitvec_bits(bits).len() == delta + 1,
                segment_bits(bitvec_bits(bits), l as int, end as int,
                    |x: int| hit_by(pr, k as int, np as int, x, q)),
                t.at_wheel(v as int, vi as int),
                l < v <= end + t.prod + 1,
                is_prime_seq(ans@, l0 as int, v - 1),
                forall|y: int| end < y < v ==> !#[trigger] rough(y, q),
            decreases end + t.prod + 2 - v,
        {
            proof {
                lemma_wheel_step(*t, v as int, vi as int);
                lemma_gap_bound(*t, vi as int);
                lemma_segment_prime(*t, pr, k as int, np as int, l0 as int, l1 as int, v as int);
            }
            if bv_at(&bits, v - l) {
                proof {
                    lemma_prime_seq_push(ans@, l0 as int, v - 1, v);
                }
                ans.push(v);
            } else {
                proof {
                    lemma_prime_seq_extend(ans@, l0 as int, v - 1, v as int);
                }
            }
            let ghost old_v = v;
            v = v + t.wheel_gap[vi];
            vi = (vi + 1) % wl;
            proof {
                assert forall|y: int| old_v < y < v implies !is_prime(y) by {
                    if is_prime(y) {
                        lemma_prime_rough(y, q);
                    }
                }
                lemma_prime_seq_extend(ans@, l0 as int, old_v as int, v - 1);
            }
        }
        proof {
            assert forall|y: int| end < y <= v - 1 implies !is_prime(y) by {
                if is_prime(y) {
                    lemma_prime_rough(y, q);
                }
            }
            lemma_prime_seq_restrict(ans@, l0 as int, end as int, v - 1);
            lemma_wheel_step(*t, v as int, vi as int);
        }
        bv_set_all(&mut bits);
        l = l + delta;
    }
    ans
}

/// The segmented fixed-wheel sieve: the primes up to `n`, those above `isqrt(n)`
/// found by `sieve_subtask` over the wheel of the first seven primes.
pub fn fixed_wheel_seg_sieve(n: usize) -> (r: Vec<usize>)
    requires
        n <= usize::MAX / 4,
    ensures
        is_prime_seq(r@, 0, n as int),
{
    let k: usize = 7;
    let t = wheel_struct(k);
    if n == 0 {
        return Vec::new();
    }
    let delta = isqrt(n);
    proof {
        assert(delta <= n) by (nonlinear_arith)
            requires
                delta * delta <= n,
        ;
    }
    let pris = e_sieve(delta);
    rolling_or_subtasks(&t, n, delta, pris, false)
}

/// The same sieve with the range above `isqrt(n)` cut by `subtask_ranges` into
/// parts that are sieved apart and joined in order.
pub fn fixed_wheel_seg_sieve_p(n: usize) -> (r: Vec<usize>)
    requires
        n <= usize::MAX / 4,
    ensures
        is_prime_seq(r@, 0, n as int),
{
    let k: usize = 7;
    let t = wheel_struct(k);
    if n == 0 {
        return Vec::new();
    }
    let delta = isqrt(n);
    proof {
        assert(delta <= n) by (nonlinear_arith)
            requires
                delta * delta <= n,
        ;
    }
    let pris = crate::prime_sieves::e_seg_sieve(delta);
    rolling_or_subtasks(&t, n, delta, pris, true)
}

/// The primes up to `n`, given those up to `delta = isqrt(n)`: where all of those
/// are the wheel's primes, the wheel is rolled up to `n`, each candidate being
/// prime; otherwise the range above `delta` is sieved, in one part or in the parts
/// of `subtask_ranges`.
fn rolling_or_subtasks(t: &WStruct, n: usize, delta: usize, pris: Vec<usize>, in_parts: bool) -> (r: Vec<usize>)
    requires
        t.ok(),
        1 <= n <= usize::MAX / 4,
        delta * delta <= n < (delta + 1) * (delta + 1),
        is_prime_seq(pris@, 0, delta as int),
    ensures
        is_prime_seq(r@, 0, n as int),
{
    let ghost q = t.next_prime as int;
    let np = pris.len();
    let kk = t.primes.len();
    proof {
        assert(delta >= 1) by (nonlinear_arith)
            requires
                n < (delta + 1) * (delta + 1),
                n >= 1,
        ;
        assert(delta <= n) by (nonlinear_arith)
            requires
                delta * delta <= n,
        ;
    }
    if np <= kk {
        proof {
            // every prime up to `delta` is a wheel prime, so `q * q > n`
            if q <= delta {
                lemma_prime_seq_prefix(t.primes@, pris@, q - 1, delta as int);
                assert(pris@.contains(q as usize));
                let j = choose|j: int| 0 <= j < pris@.len() && pris@[j] == q as usize;
                if j < kk {
                    assert(pris@[j] == t.primes@[j]);
                }
            }
            assert(q * q > n) by (nonlinear_arith)
                requires
                    q >= delta + 1,
                    n < (delta + 1) * (delta + 1),
            ;
        }
        let mut ans: Vec<usize> = Vec::new();
        let mut i: usize = 0;
        while i < kk
            invariant
                t.ok(),
                q == t.next_prime,
                kk == t.primes@.len(),
                i <= kk,
                ans@ == t.primes@.take(i as int),
                forall|j: int| 0 <= j < i ==> t.primes@[j] <= n,
            decreases kk - i,
        {
            if t.primes[i] > n {
                proof {
                    assert forall|p: int| 0 < p <= n && is_prime(p) implies ans@.contains(p as usize) by {
                        assert(p < t.primes@[i as int]);
                        let j = choose|j: int| 0 <= j < t.primes@.len() && t.primes@[j] == p as usize;
                        if j >= i {
                            if j > i {
                                assert(t.primes@[i as int] < t.primes@[j]);
                            }
                        }
                        assert(ans@[j] == t.primes@[j]);
                    }
                }
                return ans;
            }
            ans.push(t.primes[i]);
            proof {
                assert(ans@ =~= t.primes@.take(i + 1));
            }
            i = i + 1;
        }
        proof {
            assert(ans@ =~= t.primes@);
            assert forall|y: int| n < y < q implies !is_prime(y) by {
                if is_prime(y) {
                    let j = choose|j: int| 0 <= j < t.primes@.len() && t.primes@[j] == y as usize;
                }
            }
            assert(t.wheel@[1] == q) by {
                // the least wheel element above 1 is the least rough integer above 1
                let w = t.wheel@;
                assert(w[0] < w[1]);
                crate::prime_spec::lemma_lpf_of(w[1] as int);
                let p2 = crate::prime_spec::lpf_of(w[1] as int);
                if p2 < q {
                    assert(!divides(p2, w[1] as int));
                }
                assert(q <= w[1]);
                lemma_prime_rough(q, q);
                let j = choose|j: int| 0 <= j < w.len() && w[j] == q as usize;
                if j > 1 {
                    assert(w[1] < w[j]);
                }
            }
            assert(t.wheel_gap@[0] == t.wheel@[1] - t.wheel@[0]);
            vstd::arithmetic::div_mod::lemma_small_mod(0, t.prod as nat);
            vstd::arithmetic::div_mod::lemma_small_mod(1, t.wheel@.len() as nat);
        }
        let mut v = 1 + t.wheel_gap[0];
        let mut vi: usize = 1;
        let wl = t.wheel.len();
        while v <= n
            invariant
                t.ok(),
                q == t.next_prime,
                wl == t.wheel@.len(),
                1 <= n <= usize::MAX / 4,
                q * q > n,
                t.at_wheel(v as int, vi as int),
                q <= v <= n + t.prod + 1,
                is_prime_seq(ans@, 0, v - 1),
                forall|y: int| n < y < v ==> !is_prime(y),
            decreases n + t.prod + 2 - v,
        {
            proof {
                lemma_wheel_step(*t, v as int, vi as int);
                lemma_gap_bound(*t, vi as int);
                lemma_rough_small_is_prime(v as int, q);
                lemma_prime_seq_push(ans@, 0, v - 1, v);
            }
            ans.push(v);
            let ghost old_v = v;
            v = v + t.wheel_gap[vi];
            vi = (vi + 1) % wl;
            proof {
                assert forall|y: int| old_v < y < v implies !is_prime(y) by {
                    if is_prime(y) {
                        lemma_prime_rough(y, q);
                    }
                }
                lemma_prime_seq_extend(ans@, 0, old_v as int, v - 1);
            }
        }
        proof {
            lemma_prime_seq_restrict(ans@, 0, n as int, v - 1);
        }
        return ans;
    }
    proof {
        if delta < q {
            lemma_prime_seq_prefix(pris@, t.primes@, delta as int, q - 1);
        }
        lemma_prime_seq_prefix(t.primes@, pris@, q - 1, delta as int);
        let pr = pris@;
        assert forall|j: int| kk <= j < np implies is_prime(#[trigger] pr[j] as int) && q <= pr[j] <= delta by {
            if pr[j] < q {
                let j2 = choose|j2: int| 0 <= j2 < t.primes@.len() && t.primes@[j2] == pr[j];
                assert(pr[j2] == t.primes@[j2]);
                if j2 < j {
                    assert(pr[j2] < pr[j]);
                }
            }
        }
        assert forall|p: int| #![trigger is_prime(p)] is_prime(p) && q <= p && p * p <= n
            implies exists|j: int| kk <= j < np && #[trigger] pr[j] == p by {
            assert(p <= delta) by (nonlinear_arith)
                requires
                    p * p <= n,
                    n < (delta + 1) * (delta + 1),
                    p >= 1,
            ;
            let j = choose|j: int| 0 <= j < pr.len() && pr[j] == p as usize;
            if j < kk {
                assert(pr[j] == t.primes@[j]);
            }
        }
    }
    let mut rest: Vec<usize> = Vec::new();
    if in_parts {
        let ranges = subtask_ranges(n, delta);
        let mut c: usize = 0;
        while c < ranges.len()
            invariant
                t.ok(),
                sieving_ok(pris@, kk as int, np as int, t.next_prime as int, delta as int, n as int),
                kk == t.primes@.len(),
                np == pris@.len(),
                t.next_prime <= delta + 1,
                1 <= delta <= n <= usize::MAX / 4,
                ranges@.len() == USED_CPU_CORES_NUM,
                ranges@[0].0 == delta,
                ranges@[ranges@.len() - 1].1 == n,
                forall|cc: int| 0 <= cc < ranges@.len() - 1 ==> #[trigger] ranges@[cc].1 == ranges@[cc + 1].0,
                forall|cc: int| 0 <= cc < ranges@.len() ==> delta <= #[trigger] ranges@[cc].0 <= ranges@[cc].1 <= n,
                c <= ranges@.len(),
                is_prime_seq(rest@, delta as int, if c == 0 { delta as int } else { ranges@[c - 1].1 as int }),
            decreases ranges@.len() - c,
        {
            let (lo, hi) = ranges[c];
            proof {
                let pr = pris@;
                assert forall|p: int| #![trigger is_prime(p)] is_prime(p) && t.next_prime <= p && p * p <= hi
                    implies exists|j: int| kk <= j < np && #[trigger] pr[j] == p by {
                    assert(is_prime(p) && t.next_prime <= p && p * p <= n);
                }
                assert forall|j: int| kk <= j < np implies is_prime(#[trigger] pr[j] as int) && t.next_prime <= pr[j] <= lo by {
                    assert(is_prime(pr[j] as int) && t.next_prime <= pr[j] <= delta);
                }
                if c > 0 {
                    assert(ranges@[c - 1].1 == ranges@[c as int].0);
                }
            }
            let mut part = sieve_subtask(t, &pris, np, lo, hi, delta);
            proof {
                let prev = if c == 0 { delta as int } else { ranges@[c - 1].1 as int };
                assert(prev == lo);
                lemma_prime_seq_concat(rest@, part@, delta as int, lo as int, hi as int);
            }
            rest.append(&mut part);
            c = c + 1;
        }
    } else {
        rest = sieve_subtask(t, &pris, np, delta, n, delta);
    }
    proof {
        crate::prime_spec::lemma_prime_seq_concat(pris@, rest@, 0, delta as int, n as int);
    }
    let mut res = pris;
    res.append(&mut rest);
    res
}

} // verus!

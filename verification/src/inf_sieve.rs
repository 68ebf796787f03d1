//! An unbounded prime sieve, handing out the primes one at a time, and the
//! factorization of numbers by the primes it hands out.

use vstd::prelude::*;
use crate::prime_spec::{is_prime, is_prime_seq, divides, seq_product};
use crate::prime_sieves::{e_seg_sieve_0, lemma_segment_ready};

verus! {

/// The primes in increasing order, sieved one segment `(p0^2, p1^2]` at a time,
/// where `p1` is the last prime found and `p0` the one before the segment.
pub struct EIncSieveInf {
    pris: Vec<usize>,
    p0: usize,
    covered: usize,
    pos: usize,
}

impl EIncSieveInf {
    #[verifier::type_invariant]
    spec fn well_formed(self) -> bool {
        &&& is_prime_seq(self.pris@, 0, self.covered as int)
        &&& 2 <= self.p0
        &&& self.covered == self.p0 * self.p0
        &&& self.pris@.len() >= 1
        &&& self.pos <= self.pris@.len()
    }

    /// The primes handed out so far.
    pub closed spec fn yielded(self) -> Seq<usize> {
        self.pris@.subrange(0, self.pos as int)
    }

    /// The bound up to which every prime has been found.
    pub closed spec fn bound(self) -> int {
        self.covered as int
    }

    /// Takes one more segment; fails where its end would not fit in `usize`.
    fn grow(&mut self) -> (r: bool)
        ensures
            final(self).yielded() == old(self).yielded(),
            r ==> final(self).bound() > old(self).bound(),
            r ==> final(self).pris@.len() >= old(self).pris@.len(),
            !r ==> *final(self) == *old(self),
            !r ==> final(self).bound() * final(self).bound() >= usize::MAX,
    {
        proof {
            use_type_invariant(&*self);
        }
        let ghost old_pris = self.pris@;
        let p1 = self.pris[self.pris.len() - 1];
        proof {
            assert(is_prime(old_pris[old_pris.len() - 1] as int));
        }
        // A prime lies in `(p0, p0^2]` (Bertrand's postulate), so `p1 > p0`; the
        // second arm only keeps the progress evident.
        let b = if p1 > self.p0 { p1 } else { self.covered };
        proof {
            assert(b <= self.covered);
            assert(self.covered >= 4) by (nonlinear_arith)
                requires
                    self.covered == self.p0 * self.p0,
                    self.p0 >= 2,
            ;
            assert(self.covered > self.p0) by (nonlinear_arith)
                requires
                    self.covered == self.p0 * self.p0,
                    self.p0 >= 2,
            ;
            assert(b > self.p0);
        }
        let lim = (usize::MAX - 1) / b;
        if b > lim {
            proof {
                assert(self.covered * self.covered >= usize::MAX) by (nonlinear_arith)
                    requires
                        b > lim,
                        lim == (usize::MAX - 1) / (b as int),
                        b <= self.covered,
                        b >= 1,
                ;
            }
            return false;
        }
        proof {
            assert(b * b <= usize::MAX - 1) by (nonlinear_arith)
                requires
                    b <= lim,
                    lim == (usize::MAX - 1) / (b as int),
                    b >= 1,
            ;
            assert(self.covered < b * b) by (nonlinear_arith)
                requires
                    self.covered == self.p0 * self.p0,
                    b > self.p0,
                    self.p0 >= 2,
            ;
            assert((b * b) < (self.covered + 1) * (self.covered + 1)) by (nonlinear_arith)
                requires
                    b <= self.covered,
                    b >= 1,
            ;
        }
        let l = self.covered;
        let delta = b * b - l;
        proof {
            lemma_segment_ready(self.pris@, l as int, l as int, delta as int);
        }
        let round = e_seg_sieve_0(&self.pris, l, delta);
        proof {
            crate::prime_spec::lemma_prime_seq_concat(self.pris@, round@, 0, l as int, b * b);
        }
        let mut st = e_inc_sieve_inf();
        std::mem::swap(&mut st, self);
        let EIncSieveInf { pris, p0: _, covered: _, pos } = st;
        let mut pris = pris;
        let mut round = round;
        pris.append(&mut round);
        proof {
            assert(pris@.subrange(0, pos as int) == old_pris.subrange(0, pos as int));
        }
        *self = EIncSieveInf { pris, p0: b, covered: b * b, pos };
        true
    }

    /// The next prime: `Some(p)` with every prime below `p` handed out before, or
    /// `None` once the next segment would pass `usize::MAX`, every prime up to a
    /// bound at least the square root of `usize::MAX` having been handed out.
    pub fn next(&mut self) -> (r: Option<usize>)
        ensures
            is_prime_seq(final(self).yielded(), 0, final(self).yielded().last() as int) || final(self).yielded().len() == 0,
            match r {
                Some(p) => final(self).yielded() == old(self).yielded().push(p) && is_prime_seq(final(self).yielded(), 0, p as int),
                None => final(self).yielded() == old(self).yielded() && is_prime_seq(final(self).yielded(), 0, final(self).bound())
                    && final(self).bound() * final(self).bound() >= usize::MAX,
            },
    {
        proof {
            use_type_invariant(&*self);
        }
        while self.pos >= self.pris.len()
            invariant
                self.yielded() == old(self).yielded(),
                self.pos <= self.pris@.len(),
                is_prime_seq(self.pris@, 0, self.covered as int),
            decreases usize::MAX - self.bound(),
        {
            proof {
                use_type_invariant(&*self);
            }
            if !self.grow() {
                proof {
                    use_type_invariant(&*self);
                    assert(self.yielded() == self.pris@);
                }
                return None;
            }
            proof {
                use_type_invariant(&*self);
            }
        }
        proof {
            use_type_invariant(&*self);
        }
        let p = self.pris[self.pos];
        let ghost s = self.pris@;
        self.pos = self.pos + 1;
        proof {
            let y = s.subrange(0, self.pos as int);
            assert(y == old(self).yielded().push(p));
            assert forall|i: int, j: int| 0 <= i < j < y.len() implies y[i] < y[j] by {
                assert(s[i] < s[j]);
            }
            assert forall|i: int| 0 <= i < y.len() implies 0 < #[trigger] y[i] <= p && is_prime(y[i] as int) by {
                assert(is_prime(s[i] as int));
                if i < y.len() - 1 {
                    assert(s[i] < s[self.pos - 1]);
                }
            }
            assert forall|q: int| 0 < q <= p && is_prime(q) implies y.contains(q as usize) by {
                assert(s.contains(q as usize));
                let i = choose|i: int| 0 <= i < s.len() && s[i] == q as usize;
                if i >= self.pos {
                    assert(s[self.pos - 1] < s[i]);
                }
                assert(y[i] == q as usize);
            }
        }
        Some(p)
    }
}

/// An unbounded sieve, starting from the primes 2 and 3.
pub fn e_inc_sieve_inf() -> (r: EIncSieveInf)
    ensures
        r.yielded() == Seq::<usize>::empty(),
{
    proof {
        crate::prime_spec::lemma_primes_upto_3();
    }
    let pris = vec![2usize, 3usize];
    proof {
        assert(pris@ == seq![2usize, 3usize]);
        assert forall|p: int| 0 < p <= 4 && is_prime(p) implies pris@.contains(p as usize) by {
            if p == 4 {
                assert(divides(2, 4));
            }
            assert(pris@[0] == 2 && pris@[1] == 3);
        }
    }
    let r = EIncSieveInf { pris, p0: 2, covered: 4, pos: 0 };
    assert(r.yielded() =~= Seq::<usize>::empty());
    r
}

/// Every element of `s` is prime, and they do not decrease.
pub open spec fn is_sorted_primes(s: Seq<usize>) -> bool {
    &&& forall|i: int| 0 <= i < s.len() ==> is_prime(#[trigger] s[i] as int)
    &&& forall|i: int, j: int| 0 <= i <= j < s.len() ==> s[i] <= s[j]
}

/// The prime factors of `n` with their multiplicities, in increasing order;
/// none for 0 and 1.
pub fn factorization(n: usize) -> (r: Vec<usize>)
    ensures
        n == 0 ==> r@.len() == 0,
        n >= 1 ==> seq_product(r@) == n,
        is_sorted_primes(r@),
{
    let mut factors: Vec<usize> = Vec::new();
    if n == 0 {
        return factors;
    }
    let mut m = n;
    let mut sieve = e_inc_sieve_inf();
    let ghost mut last: int = 1;
    loop
        invariant_except_break
            1 <= m,
            m * seq_product(factors@) == n,
            is_sorted_primes(factors@),
            forall|i: int| 0 <= i < factors@.len() ==> #[trigger] factors@[i] <= last,
            forall|q: int| is_prime(q) && q <= last ==> !#[trigger] divides(q, m as int),
            m > 1 ==> last < m,
            is_prime_seq(sieve.yielded(), 0, last),
        ensures
            seq_product(factors@) == n,
            is_sorted_primes(factors@),
        decreases m - last,
    {
        let ghost y0 = sieve.yielded();
        match sieve.next() {
            Some(p) => {
                proof {
                    assert forall|q: int| last < q < p implies !is_prime(q) by {
                        if is_prime(q) {
                            assert(sieve.yielded().contains(q as usize));
                            let i = choose|i: int| 0 <= i < sieve.yielded().len() && sieve.yielded()[i] == q as usize;
                            if i < y0.len() {
                                assert(y0[i] <= last);
                            }
                        }
                    }
                    assert(p > last) by {
                        assert(sieve.yielded() == y0.push(p));
                        assert(sieve.yielded()[y0.len() as int] == p);
                        if y0.len() > 0 {
                            assert(sieve.yielded()[y0.len() - 1] == y0[y0.len() - 1]);
                        }
                        if y0.len() > 0 {
                            assert(y0[y0.len() - 1] < p);
                        }
                        if p <= last {
                            assert(y0.contains(p));
                            let i = choose|i: int| 0 <= i < y0.len() && y0[i] == p;
                            assert(sieve.yielded()[i] < sieve.yielded()[y0.len() as int]);
                        }
                    }
                    // every prime factor of `m` lies above `last`, so the next prime is at most `m`
                    if m > 1 {
                        lemma_prime_factor_at_least(m as int, last, p as int);
                    }
                }
                let ghost m_entry = m;
                while m % p == 0
                    invariant
                        1 <= m <= m_entry,
                        m * seq_product(factors@) == n,
                        is_sorted_primes(factors@),
                        is_prime(p as int),
                        p > last,
                        forall|i: int| 0 <= i < factors@.len() ==> #[trigger] factors@[i] <= p,
                        forall|q: int| is_prime(q) && q < p ==> !#[trigger] divides(q, m as int),
                    decreases m,
                {
                    let ghost m0 = m;
                    let ghost f0 = factors@;
                    assert(m / p < m) by (nonlinear_arith)
                        requires
                            m >= 1,
                            p >= 2,
                    ;
                    m = m / p;
                    factors.push(p);
                    proof {
                        lemma_div_exact(m0 as int, p as int);
                        assert(factors@.drop_last() == f0);
                        assert(seq_product(factors@) == seq_product(f0) * p);
                        assert(m * seq_product(factors@) == n) by (nonlinear_arith)
                            requires
                                m0 == m * p,
                                m0 * seq_product(f0) == n,
                                seq_product(factors@) == seq_product(f0) * p,
                        ;
                        assert forall|q: int| is_prime(q) && q < p implies !#[trigger] divides(q, m as int) by {
                            if divides(q, m as int) {
                                assert(q > 0);
                                lemma_divides_mul(q, m as int, p as int);
                                assert(divides(q, m0 as int));
                            }
                        }
                        assert(m >= 1) by (nonlinear_arith)
                            requires
                                m0 == m * p,
                                m0 >= 1,
                                p >= 2,
                        ;
                    }
                }
                proof {
                    assert forall|q: int| is_prime(q) && q <= p implies !#[trigger] divides(q, m as int) by {
                        if q == p {
                            assert(m % p != 0);
                        }
                    }
                    last = p as int;
                    if m > 1 {
                        lemma_prime_factor_above(m as int, last);
                    }
                }
                if m == 1 {
                    proof {
                        let sp = seq_product(factors@);
                        assert(sp == n) by (nonlinear_arith)
                            requires
                                m == 1,
                                m * sp == n,
                        ;
                    }
                    break;
                }
            },
            None => {
                if m > 1 {
                    let ghost f0 = factors@;
                    proof {
                        assert forall|q: int| is_prime(q) && q <= sieve.bound() implies !#[trigger] divides(q, m as int) by {
                            if q > last && q > 0 {
                                assert(sieve.yielded().contains(q as usize));
                            }
                        }
                        lemma_rest_is_prime(m as int, sieve.bound());
                        assert(is_prime(m as int));
                    }
                    factors.push(m);
                    proof {
                        assert(factors@.drop_last() == f0);
                        let sp0 = seq_product(f0);
                        assert(seq_product(factors@) == sp0 * m);
                        assert(sp0 * m == n) by (nonlinear_arith)
                            requires
                                m * sp0 == n,
                        ;
                        assert(forall|i: int| 0 <= i < f0.len() ==> #[trigger] f0[i] <= last);
                    }
                } else {
                    proof {
                        let sp = seq_product(factors@);
                        assert(sp == n) by (nonlinear_arith)
                            requires
                                m == 1,
                                m * sp == n,
                        ;
                    }
                }
                break;
            },
        }
    }
    factors
}

/// Where `d` divides `a`, it divides `a * b`.
proof fn lemma_divides_mul(d: int, a: int, b: int)
    requires
        d > 0,
        divides(d, a),
    ensures
        divides(d, a * b),
{
    vstd::arithmetic::div_mod::lemma_fundamental_div_mod(a, d);
    let k = a / d;
    assert(a * b == d * (k * b)) by (nonlinear_arith)
        requires
            a == d * k + 0,
    ;
    crate::prime_spec::lemma_mul_divides(d, k * b);
}

/// Dividing by an exact divisor: `m = (m / p) * p`.
proof fn lemma_div_exact(m: int, p: int)
    requires
        p > 0,
        m % p == 0,
    ensures
        m == (m / p) * p,
{
    vstd::arithmetic::div_mod::lemma_fundamental_div_mod(m, p);
    vstd::arithmetic::mul::lemma_mul_is_commutative(p, m / p);
}

/// Where no prime up to `last` divides `m > 1`, the least prime above `last`
/// (which `p` is) is at most `m`.
proof fn lemma_prime_factor_at_least(m: int, last: int, p: int)
    requires
        m > 1,
        last < m,
        is_prime(p),
        p > last,
        forall|q: int| is_prime(q) && q <= last ==> !#[trigger] divides(q, m),
        forall|q: int| last < q < p ==> !is_prime(q),
    ensures
        p <= m,
{
    crate::prime_spec::lemma_has_least_prime_factor(m);
    let q = choose|q: int| #[trigger] crate::prime_spec::is_least_prime_factor(q, m);
    crate::prime_spec::lemma_divisor_le(q, m);
    if q <= last {
        assert(!divides(q, m));
    }
}

/// Where no prime up to `last` divides `m > 1`, `m` lies above `last`.
proof fn lemma_prime_factor_above(m: int, last: int)
    requires
        m > 1,
        forall|q: int| is_prime(q) && q <= last ==> !#[trigger] divides(q, m),
    ensures
        last < m,
{
    crate::prime_spec::lemma_has_least_prime_factor(m);
    let q = choose|q: int| #[trigger] crate::prime_spec::is_least_prime_factor(q, m);
    crate::prime_spec::lemma_divisor_le(q, m);
}

/// A number `m > 1` below `usize::MAX` with no prime factor up to `b`, where
/// `b * b >= usize::MAX`, is prime.
proof fn lemma_rest_is_prime(m: int, b: int)
    requires
        1 < m <= usize::MAX,
        b * b >= usize::MAX,
        b >= 0,
        forall|q: int| is_prime(q) && q <= b ==> !#[trigger] divides(q, m),
    ensures
        is_prime(m),
{
    if !is_prime(m) {
        crate::prime_spec::lemma_composite_has_small_prime_factor(m);
        let q = choose|q: int| is_prime(q) && q * q <= m && #[trigger] divides(q, m);
        if q > b {
            assert(q * q > b * b) by (nonlinear_arith)
                requires
                    q > b,
                    b >= 0,
            ;
        }
    }
}

} // verus!

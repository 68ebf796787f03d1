//! Bloom filters over bytes that fit in one machine word.

use vstd::prelude::*;

verus! {

/// Bit `s` of `w` is set.
pub open spec fn bit64(w: u64, s: u64) -> bool {
    w & (1u64 << s) != 0
}

/// Setting bit `s` of `w` sets it and leaves every other bit as it was.
pub proof fn lemma_set_bit64(w: u64, s: u64, t: u64)
    requires
        s < 64,
        t < 64,
    ensures
        bit64(w | (1u64 << s), t) == (bit64(w, t) || s == t),
{
    assert((w | (1u64 << s)) & (1u64 << t) != 0 <==> (w & (1u64 << t) != 0 || s == t)) by (bit_vector)
        requires
            s < 64,
            t < 64,
    ;
}

/// The bit that the `i`-th hash of `elem` sets on insertion.
pub open spec fn insert_slot(elem: u8, i: int) -> int {
    ((elem + i) % 255) % 64
}

/// A filter that may answer yes for items never inserted, but answers yes for
/// every inserted one.
pub trait BloomFilter<T> {
    /// Whether the filter answers for `item` without fault.
    spec fn can_query(&self, item: T) -> bool;

    /// Records `item`.
    fn insert(&mut self, item: &T)
        requires
            old(self).can_query(*item),
    ;

    /// Whether `item` may have been inserted.
    fn contains(&self, item: &T) -> bool
        requires
            self.can_query(*item),
    ;
}

/// A one-hash filter of bytes: byte `b` sets bit `b & 63` of the mask.
pub struct BytesBloomFilter {
    mask: u64,
}

impl BytesBloomFilter {
    /// The bits that are set.
    pub closed spec fn bits(&self) -> u64 {
        self.mask
    }

    /// The empty filter.
    pub fn new() -> (r: Self)
        ensures
            r.bits() == 0,
    {
        BytesBloomFilter { mask: 0 }
    }
}

impl BloomFilter<u8> for BytesBloomFilter {
    open spec fn can_query(&self, item: u8) -> bool {
        true
    }

    fn insert(&mut self, elem: &u8)
        ensures
            final(self).bits() == old(self).bits() | (1u64 << ((*elem & 63u8) as u64)),
            forall|t: u64| t < 64 ==> #[trigger] bit64(final(self).bits(), t) == (bit64(old(self).bits(), t)
                || t == (*elem & 63u8) as u64),
    {
        let s = (*elem & 63u8) as u64;
        assert(*elem & 63u8 < 64u8) by (bit_vector);
        self.mask = self.mask | (1u64 << s);
        proof {
            assert forall|t: u64| t < 64 implies #[trigger] bit64(self.bits(), t) == (bit64(old(self).bits(), t)
                || t == s) by {
                lemma_set_bit64(old(self).bits(), s, t);
            }
        }
    }

    fn contains(&self, elem: &u8) -> (r: bool)
        ensures
            r == bit64(self.bits(), (*elem & 63u8) as u64),
    {
        let s = (*elem & 63u8) as u64;
        assert(*elem & 63u8 < 64u8) by (bit_vector);
        (self.mask & (1u64 << s)) != 0
    }
}

/// A `k`-hash filter of bytes: byte `b` sets the bits `((b + i) % 255) & 63` for `i < k`
/// and is looked up at the bits `(b + i) & 63`.
pub struct BytesBloomFilter64 {
    mask: u64,
    k: u8,
}

impl BytesBloomFilter64 {
    /// The bits that are set.
    pub closed spec fn bits(&self) -> u64 {
        self.mask
    }

    /// The number of hashes.
    pub closed spec fn hashes(&self) -> u8 {
        self.k
    }

    /// The empty filter with `k` hashes; `with_len` picks `k` from the expected number of items.
    pub fn with_k(k: u8) -> (r: Self)
        ensures
            r.bits() == 0,
            r.hashes() == k,
    {
        BytesBloomFilter64 { mask: 0, k }
    }
}

impl BloomFilter<u8> for BytesBloomFilter64 {
    open spec fn can_query(&self, item: u8) -> bool {
        item + self.hashes() <= 256
    }

    fn insert(&mut self, elem: &u8)
        ensures
            final(self).hashes() == old(self).hashes(),
            forall|t: u64| t < 64 ==> #[trigger] bit64(final(self).bits(), t) == (bit64(old(self).bits(), t)
                || exists|i: int| 0 <= i < old(self).hashes() && t == #[trigger] insert_slot(*elem, i)),
    {
        let mut i: u8 = 0;
        while i < self.k
            invariant
                self.k == old(self).k,
                i <= self.k,
                forall|t: u64| t < 64 ==> #[trigger] bit64(self.mask, t) == (bit64(old(self).mask, t)
                    || exists|j: int| 0 <= j < i && t == #[trigger] insert_slot(*elem, j)),
            decreases self.k - i,
        {
            let x = (*elem as u16 + i as u16) % 255;
            let s = (x & 63) as u64;
            assert(x & 63u16 == x % 64) by (bit_vector);
            let ghost m0 = self.mask;
            self.mask = self.mask | (1u64 << s);
            proof {
                assert forall|t: u64| t < 64 implies #[trigger] bit64(self.mask, t) == (bit64(old(self).mask, t)
                    || exists|j: int| 0 <= j < i + 1 && t == #[trigger] insert_slot(*elem, j)) by {
                    lemma_set_bit64(m0, s, t);
                    if t == s {
                        assert(0 <= i < i + 1 && t == insert_slot(*elem, i as int));
                    }
                    if exists|j: int| 0 <= j < i + 1 && t == #[trigger] insert_slot(*elem, j) {
                        let j = choose|j: int| 0 <= j < i + 1 && t == #[trigger] insert_slot(*elem, j);
                        if j < i {
                            assert(exists|j2: int| 0 <= j2 < i && t == #[trigger] insert_slot(*elem, j2));
                        }
                    }
                    if exists|j: int| 0 <= j < i && t == #[trigger] insert_slot(*elem, j) {
                        let j = choose|j: int| 0 <= j < i && t == #[trigger] insert_slot(*elem, j);
                        assert(0 <= j < i + 1 && t == insert_slot(*elem, j));
                    }
                }
            }
            i = i + 1;
        }
    }

    fn contains(&self, elem: &u8) -> (r: bool)
        ensures
            r == forall|i: int| 0 <= i < self.hashes() ==> #[trigger] bit64(self.bits(), ((*elem + i) % 64) as u64),
    {
        let mut i: u8 = 0;
        while i < self.k
            invariant
                *elem + self.k <= 256,
                i <= self.k,
                forall|j: int| 0 <= j < i ==> #[trigger] bit64(self.mask, ((*elem + j) % 64) as u64),
            decreases self.k - i,
        {
            let v = *elem + i;
            let s = (v & 63) as u64;
            assert(v & 63u8 == v % 64) by (bit_vector);
            if (self.mask & (1u64 << s)) == 0 {
                assert(s == ((*elem + i as int) % 64) as u64);
                assert(!bit64(self.bits(), ((*elem + i as int) % 64) as u64));
                return false;
            }
            i = i + 1;
        }
        true
    }
}

} // verus!

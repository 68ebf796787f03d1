//! Small collections: a one-word Bloom filter of bytes.

use vstd::prelude::*;
use crate::bytes_set::{bit128, lemma_set_bit128};

verus! {

/// The parameters of Bloom filters; their computation is floating point.
pub struct BloomFilter {}

/// A one-hash filter of bytes in a 128-bit mask: byte `b` sets bit `b & 127`.
pub struct SimpleBloomFilter {
    mask: u128,
}

impl SimpleBloomFilter {
    /// The bits that are set.
    pub closed spec fn bits(&self) -> u128 {
        self.mask
    }

    /// The empty filter.
    pub fn new() -> (r: Self)
        ensures
            r.bits() == 0,
    {
        SimpleBloomFilter { mask: 0 }
    }

    /// Records `c` by setting bit `c & 127`.
    pub fn add(&mut self, c: &u8)
        ensures
            final(self).bits() == old(self).bits() | (1u128 << (*c & 127u8)),
            forall|t: u8| t < 128 ==> #[trigger] bit128(final(self).bits(), t) == (bit128(old(self).bits(), t)
                || t == *c & 127u8),
    {
        let s = *c & 127u8;
        assert(*c & 127u8 < 128u8) by (bit_vector);
        self.mask = self.mask | (1u128 << s);
        proof {
            assert forall|t: u8| t < 128 implies #[trigger] bit128(self.bits(), t) == (bit128(old(self).bits(), t)
                || t == s) by {
                lemma_set_bit128(old(self).bits(), s, t);
            }
        }
    }

    /// Whether bit `c & 127` is set.
    pub fn contains(&self, c: &u8) -> (r: bool)
        ensures
            r == bit128(self.bits(), *c & 127u8),
    {
        let s = *c & 127u8;
        assert(*c & 127u8 < 128u8) by (bit_vector);
        (self.mask & (1u128 << s)) != 0
    }
}

} // verus!

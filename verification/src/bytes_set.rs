//! A set of bytes held in two 128-bit words.

use vstd::prelude::*;

verus! {

/// Bit `s` of `w` is set.
pub open spec fn bit128(w: u128, s: u8) -> bool {
    w & (1u128 << s) != 0
}

/// Setting bit `s` of `w` sets it and leaves every other bit as it was.
pub proof fn lemma_set_bit128(w: u128, s: u8, t: u8)
    requires
        s < 128,
        t < 128,
    ensures
        bit128(w | (1u128 << s), t) == (bit128(w, t) || s == t),
{
    assert((w | (1u128 << s)) & (1u128 << t) != 0 <==> (w & (1u128 << t) != 0 || s == t)) by (bit_vector)
        requires
            s < 128,
            t < 128,
    ;
}

/// The word and the bit that hold byte `elem`.
pub open spec fn slot_of(elem: u8) -> (usize, u8) {
    if elem > 127 {
        (1, (elem - 128) as u8)
    } else {
        (0, elem)
    }
}

/// A set of bytes.
pub struct BytesSet {
    storage: [u128; 2],
}

impl View for BytesSet {
    type V = Set<u8>;

    closed spec fn view(&self) -> Set<u8> {
        Set::new(|x: u8| bit128(self.storage@[slot_of(x).0 as int], slot_of(x).1))
    }
}

impl BytesSet {
    /// The empty set.
    pub fn new() -> (r: Self)
        ensures
            r@ == Set::<u8>::empty(),
    {
        let r = BytesSet { storage: [0; 2] };
        proof {
            assert forall|x: u8| !#[trigger] r@.contains(x) by {
                let s = slot_of(x).1;
                assert(0u128 & (1u128 << s) == 0) by (bit_vector);
            }
            assert(r@ =~= Set::<u8>::empty());
        }
        r
    }

    /// Adds `elem`.
    pub fn insert(&mut self, elem: &u8)
        ensures
            final(self)@ == old(self)@.insert(*elem),
    {
        let (i, shift) = get_i_and_shift(elem);
        self.storage[i] = self.storage[i] | (1u128 << shift);
        proof {
            assert forall|x: u8| #[trigger] self@.contains(x) == old(self)@.insert(*elem).contains(x) by {
                lemma_set_bit128(old(self).storage@[i as int], shift, slot_of(x).1);
            }
            assert(self@ =~= old(self)@.insert(*elem));
        }
    }

    /// Whether `elem` is in the set.
    pub fn contains(&self, elem: &u8) -> (r: bool)
        ensures
            r == self@.contains(*elem),
    {
        let (i, shift) = get_i_and_shift(elem);
        (self.storage[i] & (1u128 << shift)) != 0
    }
}

/// The word index and bit position of a byte.
pub fn get_i_and_shift(elem: &u8) -> (r: (usize, u8))
    ensures
        r == slot_of(*elem),
        r.0 < 2,
        r.1 < 128,
{
    let i;
    let shift;
    if *elem > 127 {
        shift = *elem - 128;
        i = 1;
    } else {
        shift = *elem;
        i = 0;
    }
    (i, shift)
}

} // verus!

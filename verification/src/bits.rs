//! The bit vector of the `bit-vec` crate, as the sieves use it.

use vstd::prelude::*;

verus! {

#[verifier::external_type_specification]
#[verifier::external_body]
#[verifier::reject_recursive_types(B)]
pub struct ExBitVec<B>(bit_vec::BitVec<B>);

/// The bits that a `BitVec` holds, in order.
pub uninterp spec fn bitvec_bits(v: bit_vec::BitVec) -> Seq<bool>;

/// `BitVec::from_elem`: a vector of `n` bits, each equal to `bit`.
#[verifier::external_body]
pub fn bv_from_elem(n: usize, bit: bool) -> (r: bit_vec::BitVec)
    ensures
        bitvec_bits(r) == Seq::new(n as nat, |i: int| bit),
{
    bit_vec::BitVec::from_elem(n, bit)
}

/// `BitVec::get`: the bit at `i`, or `None` past the end.
#[verifier::external_body]
pub fn bv_get(v: &bit_vec::BitVec, i: usize) -> (r: Option<bool>)
    ensures
        r == (if i < bitvec_bits(*v).len() { Some(bitvec_bits(*v)[i as int]) } else { None }),
{
    v.get(i)
}

/// `BitVec::set`: writes `x` at `i`; the crate panics past the end.
#[verifier::external_body]
pub fn bv_set(v: &mut bit_vec::BitVec, i: usize, x: bool)
    requires
        i < bitvec_bits(*old(v)).len(),
    ensures
        bitvec_bits(*final(v)) == bitvec_bits(*old(v)).update(i as int, x),
{
    v.set(i, x)
}

/// `BitVec::len`: the number of bits.
#[verifier::external_body]
pub fn bv_len(v: &bit_vec::BitVec) -> (r: usize)
    ensures
        r == bitvec_bits(*v).len(),
{
    v.len()
}

/// `BitVec::set_all`: every bit becomes 1.
#[verifier::external_body]
pub fn bv_set_all(v: &mut bit_vec::BitVec)
    ensures
        bitvec_bits(*final(v)) == Seq::new(bitvec_bits(*old(v)).len(), |i: int| true),
{
    v.set_all()
}

/// Reads the bit at `i`, which lies inside the vector.
pub fn bv_at(v: &bit_vec::BitVec, i: usize) -> (r: bool)
    requires
        i < bitvec_bits(*v).len(),
    ensures
        r == bitvec_bits(*v)[i as int],
{
    match bv_get(v, i) {
        Some(b) => b,
        None => false,
    }
}

} // verus!

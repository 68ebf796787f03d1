//! The Z function of a byte string, computed naively.

use vstd::prelude::*;

verus! {

/// `l` is the length of the longest common prefix of `p` and its suffix at `i`.
pub open spec fn is_z_value(p: Seq<u8>, i: int, l: int) -> bool {
    &&& 0 <= l
    &&& i + l <= p.len()
    &&& forall|j: int| 0 <= j < l ==> #[trigger] p[j] == p[i + j]
    &&& (i + l == p.len() || p[l] != p[i + l])
}

/// For each position `i >= 1`, the length of the longest common prefix of `pat` and
/// `pat[i..]`; 0 at position 0.
pub fn compute_z_naive(pat: &[u8]) -> (z: Vec<usize>)
    ensures
        z@.len() == pat@.len(),
        pat@.len() > 0 ==> z@[0] == 0,
        forall|i: int| 1 <= i < pat@.len() ==> is_z_value(pat@, i, #[trigger] z@[i] as int),
{
    let patlen = pat.len();
    let mut vec_z: Vec<usize> = vec![0; patlen];
    let mut i: usize = 1;
    while i < patlen
        invariant
            patlen == pat@.len(),
            1 <= i,
            vec_z@.len() == patlen,
            patlen > 0 ==> vec_z@[0] == 0,
            forall|i2: int| 1 <= i2 < i && i2 < patlen ==> is_z_value(pat@, i2, #[trigger] vec_z@[i2] as int),
        decreases patlen + 1 - i,
    {
        let mut l: usize = 0;
        while i + l < patlen && pat[l] == pat[i + l]
            invariant
                patlen == pat@.len(),
                1 <= i < patlen,
                i + l <= patlen,
                forall|j: int| 0 <= j < l ==> #[trigger] pat@[j] == pat@[i + j],
            decreases patlen - l,
        {
            l = l + 1;
        }
        vec_z.set(i, l);
        i = i + 1;
    }
    vec_z
}

} // verus!

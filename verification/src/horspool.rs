//! Horspool's search: a window slides over the text, compared right to left, and
//! shifts by the bad-character distance of the text byte under its last position.

use vstd::prelude::*;
use vstd::string::StringSliceAdditionalSpecFns;
use crate::spm_spec::{
    occurs_at, is_occurrence_list, is_all_occurrences, lemma_occurrence_list_extend,
    lemma_occurrence_list_push,
};

verus! {

/// `bc` is Horspool's table for `p`: for each byte `c`, the distance from the last
/// position of `p` back to the last occurrence of `c` before it, or `p.len()` when
/// `c` occurs in none of the other positions.
pub open spec fn is_horspool_table(p: Seq<u8>, bc: Seq<usize>) -> bool {
    &&& bc.len() == 256
    &&& forall|c: int| 0 <= c < 256 ==> {
        let d = #[trigger] bc[c] as int;
        &&& 1 <= d <= p.len()
        &&& forall|k: int| p.len() - 1 - d < k < p.len() - 1 ==> #[trigger] p[k] != c as u8
        &&& (d < p.len() ==> p[p.len() - 1 - d] == c as u8)
    }
}

/// Builds the bad-character table of a non-empty pattern.
pub fn build_horspool_table(p: &[u8]) -> (bc: [usize; 256])
    requires
        p@.len() >= 1,
    ensures
        is_horspool_table(p@, bc@),
{
    let m = p.len();
    let mut bc_table = [m; 256];
    let mut i: usize = 0;
    while i < m - 1
        invariant
            m == p@.len() >= 1,
            i <= m - 1,
            bc_table@.len() == 256,
            forall|c: int| 0 <= c < 256 ==> {
                let k0 = m - 1 - #[trigger] bc_table@[c];
                &&& 1 <= bc_table@[c] <= m
                &&& k0 < i
                &&& (k0 >= 0 ==> p@[k0] == c as u8)
                &&& forall|k: int| k0 < k < i ==> p@[k] != c as u8
            },
        decreases m - 1 - i,
    {
        let c = p[i] as usize;
        bc_table[c] = m - 1 - i;
        i = i + 1;
    }
    proof {
        assert(i == m - 1);
    }
    bc_table
}

/// A compiled Horspool pattern.
pub struct HorsPoolPattern<'a> {
    pat_bytes: &'a [u8],
    bc: [usize; 256],
}

impl<'a> View for HorsPoolPattern<'a> {
    type V = Seq<u8>;

    closed spec fn view(&self) -> Seq<u8> {
        self.pat_bytes@
    }
}

impl<'a> HorsPoolPattern<'a> {
    #[verifier::type_invariant]
    spec fn well_formed(self) -> bool {
        &&& self.pat_bytes@.len() >= 1
        &&& is_horspool_table(self.pat_bytes@, self.bc@)
    }

    /// Compiles a non-empty pattern.
    pub fn new(pat: &'a str) -> (r: Self)
        requires
            pat.spec_bytes().len() >= 1,
        ensures
            r@ == pat.spec_bytes(),
    {
        let pat_bytes = pat.as_bytes();
        let bc = build_horspool_table(pat_bytes);
        HorsPoolPattern { pat_bytes, bc }
    }

    /// Builds the table of a pattern.
    pub fn build_bc(p: &'a [u8]) -> (bc: [usize; 256])
        requires
            p@.len() >= 1,
        ensures
            is_horspool_table(p@, bc@),
    {
        build_horspool_table(p)
    }

    /// Every byte position at which the pattern occurs in `string`, in increasing order.
    pub fn find_all(&self, string: &str) -> (r: Vec<usize>)
        requires
            string.spec_bytes().len() + self@.len() < isize::MAX,
        ensures
            is_all_occurrences(r@, string.spec_bytes(), self@),
    {
        proof {
            use_type_invariant(self);
        }
        let mut result: Vec<usize> = Vec::new();
        let string_bytes = string.as_bytes();
        let t = string_bytes;
        let p = self.pat_bytes;
        let m = p.len();
        let n = t.len();
        let mut string_index: isize = (m - 1) as isize;
        let mut pat_index: isize = (m - 1) as isize;
        while string_index < n as isize
            invariant
                t@ == string.spec_bytes(),
                p@ == self@,
                m == p@.len() >= 1,
                n == t@.len(),
                n + m < isize::MAX,
                is_horspool_table(p@, self.bc@),
                -1 <= pat_index <= m - 1,
                0 <= string_index - pat_index <= n,
                pat_index < m - 1 ==> string_index - pat_index + m <= n,
                forall|k: int| pat_index < k < m ==> #[trigger] t@[string_index - pat_index + k] == p@[k],
                is_occurrence_list(result@, t@, p@, string_index - pat_index),
            decreases n - (string_index - pat_index), pat_index + 1,
        {
            let ghost a = string_index - pat_index;
            if pat_index < 0 {
                proof {
                    assert(occurs_at(t@, p@, a)) by {
                        assert forall|k: int| 0 <= k < p@.len() implies #[trigger] t@[a + k] == p@[k] by {
                            assert(t@[string_index - pat_index + k] == p@[k]);
                        }
                    }
                    lemma_occurrence_list_push(result@, t@, p@, a as usize);
                }
                result.push((string_index + 1) as usize);
                string_index += 1 + m as isize;
                pat_index = (m - 1) as isize;
                continue;
            }
            if t[string_index as usize] == p[pat_index as usize] {
                pat_index -= 1;
                string_index -= 1;
                continue;
            }
            let last_char_pos = string_index as usize + (m as isize - 1 - pat_index) as usize;
            let c = t[last_char_pos];
            let shift = self.bc[c as usize];
            proof {
                assert(last_char_pos == a + m - 1);
                let d = shift as int;
                assert(1 <= d <= m && (forall|k: int| m - 1 - d < k < m - 1 ==> #[trigger] p@[k] != c)) by {
                    assert(self.bc@[c as int] == shift);
                }
                assert forall|b: int| a <= b < a + d implies !occurs_at(t@, p@, b) by {
                    if b == a {
                        assert(t@[a + pat_index] != p@[pat_index as int]);
                    } else {
                        let e = b - a;
                        assert(t@[b + (m - 1 - e)] == c);
                        assert(p@[m - 1 - e] != c);
                        assert(!(t@[b + (m - 1 - e)] == p@[m - 1 - e]));
                    }
                }
                lemma_occurrence_list_extend(result@, t@, p@, a, a + d);
            }
            string_index = (last_char_pos + shift) as isize;
            pat_index = (m - 1) as isize;
        }
        proof {
            assert(pat_index == m - 1);
        }
        result
    }
}

} // verus!

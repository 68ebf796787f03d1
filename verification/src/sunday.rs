//! Sunday's search: after each window, shift by the distance given by the text byte
//! just past the window.

use vstd::prelude::*;
use vstd::string::StringSliceAdditionalSpecFns;
use crate::spm_spec::{
    occurs_at, is_occurrence_list, is_all_occurrences, lemma_occurrence_list_extend,
    lemma_occurrence_list_push, matches_at,
};

verus! {

/// `bc` is Sunday's table for `p`: for each byte `c`, the distance `d` such that
/// `m - d` is the last position of `c` in `p`, or `m + 1` when `c` does not occur.
pub open spec fn is_sunday_table(p: Seq<u8>, bc: Seq<usize>) -> bool {
    &&& bc.len() == 256
    &&& forall|c: int| 0 <= c < 256 ==> {
        let d = #[trigger] bc[c] as int;
        &&& 1 <= d <= p.len() + 1
        &&& forall|k: int| p.len() - d < k < p.len() ==> #[trigger] p[k] != c as u8
        &&& (d <= p.len() ==> p[p.len() - d] == c as u8)
    }
}

/// A compiled Sunday pattern.
pub struct SundayPattern<'a> {
    pat_bytes: &'a [u8],
    sunday_bc: [usize; 256],
}

impl<'a> View for SundayPattern<'a> {
    type V = Seq<u8>;

    closed spec fn view(&self) -> Seq<u8> {
        self.pat_bytes@
    }
}

impl<'a> SundayPattern<'a> {
    #[verifier::type_invariant]
    spec fn well_formed(self) -> bool {
        &&& self.pat_bytes@.len() >= 1
        &&& self.pat_bytes@.len() < usize::MAX
        &&& is_sunday_table(self.pat_bytes@, self.sunday_bc@)
    }

    /// Compiles a non-empty pattern.
    pub fn new(pat: &'a str) -> (r: Self)
        requires
            1 <= pat.spec_bytes().len() < usize::MAX,
        ensures
            r@ == pat.spec_bytes(),
    {
        let pat_bytes = pat.as_bytes();
        let sunday_bc = Self::build_sunday_bc(pat_bytes);
        SundayPattern { pat_bytes, sunday_bc }
    }

    /// Builds Sunday's table of a non-empty pattern.
    pub fn build_sunday_bc(p: &'a [u8]) -> (bc: [usize; 256])
        requires
            1 <= p@.len() < usize::MAX,
        ensures
            is_sunday_table(p@, bc@),
    {
        let m = p.len();
        let mut sunday_bc_table = [m + 1; 256];
        let mut i: usize = 0;
        while i < m
            invariant
                m == p@.len(),
                1 <= m < usize::MAX,
                i <= m,
                sunday_bc_table@.len() == 256,
                forall|c: int| 0 <= c < 256 ==> {
                    let k0 = m - #[trigger] sunday_bc_table@[c];
                    &&& 1 <= sunday_bc_table@[c] <= m + 1
                    &&& k0 < i
                    &&& (k0 >= 0 ==> p@[k0] == c as u8)
                    &&& forall|k: int| k0 < k < i ==> p@[k] != c as u8
                },
            decreases m - i,
        {
            let c = p[i] as usize;
            sunday_bc_table[c] = m - i;
            i = i + 1;
        }
        sunday_bc_table
    }

    /// Every byte position at which the pattern occurs in `string`, in increasing order.
    pub fn find_all(&self, string: &str) -> (r: Vec<usize>)
        requires
            string.spec_bytes().len() + self@.len() < usize::MAX,
        ensures
            is_all_occurrences(r@, string.spec_bytes(), self@),
    {
        proof {
            use_type_invariant(self);
        }
        let mut result: Vec<usize> = Vec::new();
        let t = string.as_bytes();
        let p = self.pat_bytes;
        let pat_last_pos = p.len() - 1;
        let stringlen = t.len();
        let mut string_index = pat_last_pos;
        while string_index < stringlen
            invariant_except_break
                is_occurrence_list(result@, t@, p@, string_index - pat_last_pos),
            invariant
                t@ == string.spec_bytes(),
                p@ == self@,
                pat_last_pos + 1 == p@.len(),
                1 <= p@.len() < usize::MAX,
                stringlen == t@.len(),
                is_sunday_table(p@, self.sunday_bc@),
                pat_last_pos <= string_index,
                string_index - pat_last_pos <= stringlen,
                stringlen + p@.len() < usize::MAX,
            ensures
                is_all_occurrences(result@, t@, p@),
            decreases stringlen - (string_index - pat_last_pos),
        {
            let a = string_index - pat_last_pos;
            if matches_at(t, p, a) {
                proof {
                    lemma_occurrence_list_push(result@, t@, p@, a);
                }
                result.push(a);
            } else {
                proof {
                    lemma_occurrence_list_extend(result@, t@, p@, a as int, a + 1);
                }
            }
            if string_index + 1 == stringlen {
                break;
            }
            let c = t[string_index + 1];
            let d = self.sunday_bc[c as usize];
            proof {
                let m = p@.len() as int;
                assert(self.sunday_bc@[c as int] == d);
                assert forall|b: int| a + 1 <= b < a + d implies !occurs_at(t@, p@, b) by {
                    let e = b - a;
                    if b + m <= t@.len() {
                        assert(t@[b + (m - e)] == c);
                        assert(p@[m - e] != c);
                        assert(!(t@[b + (m - e)] == p@[m - e]));
                    }
                }
                lemma_occurrence_list_extend(result@, t@, p@, a + 1, a + d);
            }
            string_index = string_index + d;
        }
        result
    }
}

} // verus!

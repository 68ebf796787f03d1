//! The search of Python's string library: a Boyer-Moore-Horspool window with a
//! Sunday-style skip past bytes absent from the pattern.

use vstd::prelude::*;
use vstd::string::StringSliceAdditionalSpecFns;
use crate::spm_spec::{
    occurs_at, is_occurrence_list, is_all_occurrences, lemma_occurrence_list_extend,
    lemma_occurrence_list_push, prefix_matches_at,
};
use crate::horspool::{is_horspool_table, build_horspool_table};

verus! {

/// `alphabet` marks exactly the bytes that occur in `p`.
pub open spec fn is_alphabet_table(p: Seq<u8>, alphabet: Seq<bool>) -> bool {
    &&& alphabet.len() == 256
    &&& forall|c: int| 0 <= c < 256 ==> (#[trigger] alphabet[c] <==> exists|k: int| 0 <= k < p.len() && p[k] == c as u8)
}

/// A compiled pattern of the time-optimised variant.
pub struct B5STimePattern<'a> {
    pat_bytes: &'a [u8],
    alphabet: [bool; 256],
    bm_bc: [usize; 256],
}

impl<'a> View for B5STimePattern<'a> {
    type V = Seq<u8>;

    closed spec fn view(&self) -> Seq<u8> {
        self.pat_bytes@
    }
}

impl<'a> B5STimePattern<'a> {
    #[verifier::type_invariant]
    spec fn well_formed(self) -> bool {
        &&& self.pat_bytes@.len() >= 1
        &&& is_alphabet_table(self.pat_bytes@, self.alphabet@)
        &&& is_horspool_table(self.pat_bytes@, self.bm_bc@)
    }

    /// Compiles a non-empty pattern.
    pub fn new(pat: &'a str) -> (r: Self)
        requires
            pat.spec_bytes().len() >= 1,
        ensures
            r@ == pat.spec_bytes(),
    {
        let pat_bytes = pat.as_bytes();
        let (alphabet, bm_bc) = Self::build(pat_bytes);
        B5STimePattern { pat_bytes, alphabet, bm_bc }
    }

    /// Builds the alphabet of the pattern and its Horspool table.
    pub fn build(p: &'a [u8]) -> (r: ([bool; 256], [usize; 256]))
        requires
            p@.len() >= 1,
        ensures
            is_alphabet_table(p@, r.0@),
            is_horspool_table(p@, r.1@),
    {
        let mut alphabet = [false; 256];
        let lastpos = p.len() - 1;
        let mut i: usize = 0;
        while i < lastpos
            invariant
                lastpos + 1 == p@.len(),
                i <= lastpos,
                alphabet@.len() == 256,
                forall|c: int| 0 <= c < 256 ==> (#[trigger] alphabet@[c] <==> exists|k: int| 0 <= k < i && p@[k] == c as u8),
            decreases lastpos - i,
        {
            let c = p[i] as usize;
            alphabet[c] = true;
            proof {
                assert forall|c2: int| 0 <= c2 < 256 implies (#[trigger] alphabet@[c2] <==> exists|k: int| 0 <= k < i + 1 && p@[k] == c2 as u8) by {
                    if c2 == c {
                        assert(p@[i as int] == c2 as u8);
                    }
                }
            }
            i = i + 1;
        }
        let c = p[lastpos] as usize;
        alphabet[c] = true;
        proof {
            assert forall|c2: int| 0 <= c2 < 256 implies (#[trigger] alphabet@[c2] <==> exists|k: int| 0 <= k < p@.len() && p@[k] == c2 as u8) by {
                if c2 == c {
                    assert(p@[lastpos as int] == c2 as u8);
                }
            }
        }
        let bm_bc = build_horspool_table(p);
        (alphabet, bm_bc)
    }

    /// Moves the window end `string_index` to the next candidate; false at the end of the text.
    fn skip(&self, t: &[u8], string_index: &mut usize) -> (moved: bool)
        requires
            self@.len() >= 1,
            is_alphabet_table(self@, self.alphabet@),
            is_horspool_table(self@, self.bm_bc@),
            self@.len() - 1 <= *old(string_index) < t@.len(),
            t@.len() + self@.len() < usize::MAX,
        ensures
            !moved ==> *old(string_index) + 1 == t@.len() && *final(string_index) == *old(string_index),
            moved ==> *old(string_index) < *final(string_index) <= *old(string_index) + self@.len() + 1,
            moved ==> *old(string_index) + 1 < t@.len(),
            moved ==> forall|b: int| *old(string_index) - self@.len() + 1 < b < *final(string_index) - self@.len() + 1
                ==> !occurs_at(t@, self@, b),
    {
        let si = *string_index;
        let m = self.pat_bytes.len();
        if si + 1 == t.len() {
            return false;
        }
        let c = t[si + 1];
        if !self.alphabet[c as usize] {
            proof {
                let a = si - m + 1;
                assert forall|b: int| a < b < a + m + 1 implies !occurs_at(t@, self@, b) by {
                    if occurs_at(t@, self@, b) {
                        let k = si + 1 - b;
                        assert(t@[b + k] == self@[k]);
                        assert(0 <= k < m && self@[k] == c);
                    }
                }
            }
            *string_index = si + m + 1;
        } else {
            let d = self.bm_bc[t[si] as usize];
            proof {
                let a = si - m + 1;
                let c0 = t@[si as int];
                assert(self.bm_bc@[c0 as int] == d);
                assert forall|b: int| a < b < a + d implies !occurs_at(t@, self@, b) by {
                    if occurs_at(t@, self@, b) {
                        let k = si - b;
                        assert(t@[b + k] == self@[k]);
                        assert(m - 1 - d < k < m - 1);
                        assert(self@[k] != c0);
                    }
                }
            }
            *string_index = si + d;
        }
        true
    }

    /// Every byte position at which the pattern occurs in `string`, in increasing order.
    pub fn find_all(&self, string: &str) -> (r: Vec<usize>)
        requires
            string.spec_bytes().len() + self@.len() < usize::MAX,
        ensures
            is_all_occurrences(r@, string.spec_bytes(), self@),
    {
        proof {
            use_type_invariant(self);
        }
        let mut result: Vec<usize> = Vec::new();
        let t = string.as_bytes();
        let p = self.pat_bytes;
        let pat_last_pos = p.len() - 1;
        let patlen = p.len();
        let stringlen = t.len();
        let mut string_index = pat_last_pos;
        while string_index < stringlen
            invariant_except_break
                is_occurrence_list(result@, t@, p@, string_index - pat_last_pos),
            invariant
                t@ == string.spec_bytes(),
                p@ == self@,
                pat_last_pos + 1 == p@.len(),
                patlen == p@.len(),
                p@.len() >= 1,
                stringlen == t@.len(),
                stringlen + patlen < usize::MAX,
                is_alphabet_table(p@, self.alphabet@),
                is_horspool_table(p@, self.bm_bc@),
                pat_last_pos <= string_index,
                string_index - pat_last_pos <= stringlen,
            ensures
                is_all_occurrences(result@, t@, p@),
            decreases stringlen - (string_index - pat_last_pos),
        {
            let a = string_index - pat_last_pos;
            if t[string_index] == p[pat_last_pos] {
                if prefix_matches_at(t, p, a, patlen - 1) {
                    proof {
                        assert(occurs_at(t@, p@, a as int)) by {
                            assert(t@[a + pat_last_pos] == p@[pat_last_pos as int]);
                        }
                        lemma_occurrence_list_push(result@, t@, p@, a);
                    }
                    result.push(a);
                } else {
                    proof {
                        assert(!occurs_at(t@, p@, a as int));
                        lemma_occurrence_list_extend(result@, t@, p@, a as int, a + 1);
                    }
                }
            } else {
                proof {
                    assert(!occurs_at(t@, p@, a as int)) by {
                        assert(!(t@[a + pat_last_pos] == p@[pat_last_pos as int]));
                    }
                    lemma_occurrence_list_extend(result@, t@, p@, a as int, a + 1);
                }
            }
            let ghost old_index = string_index;
            if !self.skip(t, &mut string_index) {
                break;
            }
            proof {
                lemma_occurrence_list_extend(result@, t@, p@, a + 1, string_index - pat_last_pos);
            }
        }
        result
    }
}

} // verus!

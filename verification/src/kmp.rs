//! Knuth-Morris-Pratt search over the characters of a string. The `next` table
//! holds, for each prefix of the pattern, the length of its longest proper border.

use vstd::prelude::*;
use vstd::string::StringSliceAdditionalSpecFns;
use vstd::utf8::encode_utf8;
use crate::border::{
    is_border, is_longest_proper_border, lemma_border_trans, lemma_border_of_border,
    lemma_border_extend, check_border,
};
use crate::spm_spec::{occurs_at, is_occurrence_list, is_all_occurrences};
use crate::text::{byte_offset, lemma_byte_offset_split, utf8_width, str_chars};
use crate::custom_hash_set::IteratorWrapper;

verus! {

/// `next` is the failure table of `p`: -1 first, then the longest proper border of
/// each prefix `p[..c]`.
pub open spec fn is_next_table(p: Seq<char>, next: Seq<isize>) -> bool {
    &&& next.len() == p.len()
    &&& p.len() >= 1
    &&& next[0] == -1
    &&& forall|c: int| 1 <= c < p.len() ==> is_longest_proper_border(p, c, #[trigger] next[c] as int)
}

/// The last `b` characters of `text[..k]` are the first `b` of `p`.
pub open spec fn matches_suffix(text: Seq<char>, k: int, p: Seq<char>, b: int) -> bool {
    &&& 0 <= b <= k <= text.len()
    &&& b <= p.len()
    &&& forall|i: int| 0 <= i < b ==> #[trigger] p[i] == text[k - b + i]
}

/// The byte offsets in `text` of the character positions in `cs`.
pub open spec fn byte_offsets(text: Seq<char>, cs: Seq<usize>) -> Seq<usize> {
    cs.map_values(|k: usize| byte_offset(text, k as int) as usize)
}

/// `r` lists, in increasing order, the byte offsets of every occurrence of `p` in `text`.
pub open spec fn is_all_byte_occurrences(r: Seq<usize>, text: Seq<char>, p: Seq<char>) -> bool {
    exists|cs: Seq<usize>| is_all_occurrences(cs, text, p) && r == #[trigger] byte_offsets(text, cs)
}

/// Which algorithm builds the failure table.
#[derive(Copy, Clone)]
pub enum ComputeNext {
    Naive,
    Improved,
}

/// Two suffix matches of `text[..k]` are borders of one another.
pub proof fn lemma_suffix_matches_border(text: Seq<char>, k: int, p: Seq<char>, a: int, b: int)
    requires
        matches_suffix(text, k, p, a),
        matches_suffix(text, k, p, b),
        b <= a,
    ensures
        is_border(p, a, b),
{
    assert forall|i: int| 0 <= i < b implies #[trigger] p[i] == p[a - b + i] by {
        assert(p[i] == text[k - b + i]);
        assert(p[a - b + i] == text[k - a + (a - b + i)]);
    }
}

/// A border of a suffix match is a suffix match.
pub proof fn lemma_border_suffix_match(text: Seq<char>, k: int, p: Seq<char>, a: int, b: int)
    requires
        matches_suffix(text, k, p, a),
        is_border(p, a, b),
    ensures
        matches_suffix(text, k, p, b),
{
    assert forall|i: int| 0 <= i < b implies #[trigger] p[i] == text[k - b + i] by {
        assert(p[i] == p[a - b + i]);
        assert(p[a - b + i] == text[k - a + (a - b + i)]);
    }
}

/// A suffix match grows by one character exactly when the next characters agree.
pub proof fn lemma_suffix_match_extend(text: Seq<char>, k: int, p: Seq<char>, b: int)
    requires
        0 <= b < p.len(),
        b <= k < text.len(),
    ensures
        matches_suffix(text, k + 1, p, b + 1) <==> (matches_suffix(text, k, p, b) && p[b] == text[k]),
{
    if matches_suffix(text, k + 1, p, b + 1) {
        assert(p[b] == text[k + 1 - (b + 1) + b]);
        assert forall|i: int| 0 <= i < b implies #[trigger] p[i] == text[k - b + i] by {
            assert(p[i] == text[k + 1 - (b + 1) + i]);
        }
    }
}

/// A full match ending at `k` is an occurrence starting at `k - p.len()`.
pub proof fn lemma_full_match_occurs(text: Seq<char>, k: int, p: Seq<char>)
    requires
        p.len() <= k <= text.len(),
    ensures
        matches_suffix(text, k, p, p.len() as int) <==> occurs_at(text, p, k - p.len()),
{
    let m = p.len() as int;
    if occurs_at(text, p, k - m) {
        assert forall|i: int| 0 <= i < m implies #[trigger] p[i] == text[k - m + i] by {
            assert(text[(k - m) + i] == p[i]);
        }
    }
    if matches_suffix(text, k, p, m) {
        assert forall|i: int| 0 <= i < m implies #[trigger] text[(k - m) + i] == p[i] by {
            assert(p[i] == text[k - m + i]);
        }
    }
}

/// A compiled KMP pattern.
pub struct KMPPattern {
    t: Vec<char>,
    t_str_len: usize,
    next: Vec<isize>,
}

impl View for KMPPattern {
    type V = Seq<char>;

    closed spec fn view(&self) -> Seq<char> {
        self.t@
    }
}

impl KMPPattern {
    #[verifier::type_invariant]
    spec fn well_formed(self) -> bool {
        &&& is_next_table(self.t@, self.next@)
        &&& self.t_str_len == encode_utf8(self.t@).len()
        &&& self.t@.len() < isize::MAX
    }

    /// Compiles a non-empty pattern; the improved table needs two characters.
    pub fn new(t: &str, gen_algs: ComputeNext) -> (r: Self)
        requires
            1 <= t@.len() < isize::MAX,
            gen_algs is Improved ==> t@.len() >= 2,
        ensures
            r@ == t@,
    {
        let t_vec = str_chars(t);
        let next = match gen_algs {
            ComputeNext::Naive => Self::calc_next_naive(&t_vec),
            ComputeNext::Improved => Self::calc_next_improved(&t_vec),
        };
        let t_str_len = t.as_bytes().len();
        KMPPattern { t: t_vec, t_str_len, next }
    }

    /// The failure table: -1 first, then the longest proper border of each prefix.
    pub fn next_table(&self) -> (r: Vec<isize>)
        ensures
            is_next_table(self@, r@),
    {
        proof {
            use_type_invariant(self);
        }
        self.next.clone()
    }

    /// The failure table, trying border lengths from the longest down.
    pub fn calc_next_naive(p: &Vec<char>) -> (next: Vec<isize>)
        requires
            1 <= p@.len() < isize::MAX,
        ensures
            is_next_table(p@, next@),
    {
        let mut next: Vec<isize> = vec![0; p.len()];
        next.set(0, -1);
        let mut c: usize = 0;
        while c < p.len() - 1
            invariant
                1 <= p@.len() < isize::MAX,
                c <= p@.len() - 1,
                next@.len() == p@.len(),
                next@[0] == -1,
                forall|c2: int| 1 <= c2 <= c ==> is_longest_proper_border(p@, c2, #[trigger] next@[c2] as int),
            decreases p@.len() - 1 - c,
        {
            let mut max_len = c;
            while max_len > 0 && !check_border(p, c + 1, max_len)
                invariant
                    1 <= p@.len() < isize::MAX,
                    c < p@.len() - 1,
                    max_len <= c,
                    forall|b: int| max_len < b <= c ==> !#[trigger] is_border(p@, c + 1, b),
                decreases max_len,
            {
                max_len = max_len - 1;
            }
            proof {
                if max_len == 0 {
                    crate::border::lemma_empty_border(p@, c + 1);
                }
            }
            next.set(c + 1, max_len as isize);
            c = c + 1;
        }
        next
    }

    /// The failure table, following the chain of borders of the previous prefix.
    pub fn calc_next_improved(p: &Vec<char>) -> (next: Vec<isize>)
        requires
            2 <= p@.len() < isize::MAX,
        ensures
            is_next_table(p@, next@),
    {
        let mut next: Vec<isize> = vec![0isize; p.len()];
        next.set(0, -1);
        next.set(1, 0);
        proof {
            crate::border::lemma_empty_border(p@, 1);
        }
        let mut c: usize = 1;
        while c < p.len() - 1
            invariant
                2 <= p@.len() < isize::MAX,
                1 <= c <= p@.len() - 1,
                next@.len() == p@.len(),
                next@[0] == -1,
                forall|c2: int| 1 <= c2 <= c ==> is_longest_proper_border(p@, c2, #[trigger] next@[c2] as int),
            decreases p@.len() - 1 - c,
        {
            let mut max_len = next[c];
            proof {
                assert(is_longest_proper_border(p@, c as int, next@[c as int] as int));
            }
            while max_len > 0 && p[max_len as usize] != p[c]
                invariant
                    2 <= p@.len() < isize::MAX,
                    1 <= c < p@.len() - 1,
                    next@.len() == p@.len(),
                    forall|c2: int| 1 <= c2 <= c ==> is_longest_proper_border(p@, c2, #[trigger] next@[c2] as int),
                    0 <= max_len < c,
                    is_border(p@, c as int, max_len as int),
                    forall|b: int| max_len < b < c && #[trigger] is_border(p@, c as int, b) ==> p@[b] != p@[c as int],
                decreases max_len,
            {
                let old_len = max_len;
                max_len = next[max_len as usize];
                proof {
                    let o = old_len as int;
                    assert(is_longest_proper_border(p@, o, max_len as int));
                    lemma_border_trans(p@, c as int, o, max_len as int);
                    assert forall|b: int| max_len < b < c && #[trigger] is_border(p@, c as int, b) implies p@[b] != p@[c as int] by {
                        if b < o {
                            lemma_border_of_border(p@, c as int, o, b);
                        }
                    }
                }
            }
            if p[max_len as usize] == p[c] {
                max_len = max_len + 1;
            }
            proof {
                let cc = c as int;
                let r = max_len as int;
                assert forall|b2: int| r < b2 < cc + 1 implies !#[trigger] is_border(p@, cc + 1, b2) by {
                    lemma_border_extend(p@, cc, b2 - 1);
                }
                if r > 0 && p@[r - 1] == p@[cc] {
                    lemma_border_extend(p@, cc, r - 1);
                } else {
                    crate::border::lemma_empty_border(p@, cc + 1);
                }
            }
            next.set(c + 1, max_len);
            c = c + 1;
        }
        next
    }

    /// The byte offsets of the occurrences of the pattern in `text`, in increasing
    /// order, handed out one at a time.
    pub fn find(&self, text: &str) -> (r: IteratorWrapper<usize>)
        ensures
            is_all_byte_occurrences(r.rest(), text@, self@),
    {
        IteratorWrapper::new(self.find_all(text))
    }

    /// The byte offset of every occurrence of the pattern in `text`, in increasing order.
    pub fn find_all(&self, text: &str) -> (r: Vec<usize>)
        ensures
            is_all_byte_occurrences(r@, text@, self@),
    {
        proof {
            use_type_invariant(self);
        }
        let s = str_chars(text);
        let p = &self.t;
        let m = p.len();
        let ghost mut cs: Seq<usize> = Seq::empty();
        let mut result: Vec<usize> = Vec::new();
        let mut pattern_index: isize = 0;
        let mut byte_i: usize = 0;
        let mut k: usize = 0;
        let total = text.as_bytes().len();
        proof {
            lemma_byte_offset_split(s@, 0, 0);
        }
        while k < s.len()
            invariant
                s@ == text@,
                total == encode_utf8(s@).len(),
                p@ == self@,
                m == p@.len(),
                is_next_table(p@, self.next@),
                self.t_str_len == encode_utf8(p@).len(),
                m < isize::MAX,
                k <= s@.len(),
                byte_i == byte_offset(s@, k as int),
                0 <= pattern_index < m,
                matches_suffix(s@, k as int, p@, pattern_index as int),
                forall|b: int| pattern_index < b < m ==> !#[trigger] matches_suffix(s@, k as int, p@, b),
                is_occurrence_list(cs, s@, p@, k - m + 1),
                result@ == byte_offsets(s@, cs),
            decreases s@.len() - k,
        {
            let c = s[k];
            let w = utf8_width(c);
            let ghost mut pushed = false;
            proof {
                crate::text::lemma_encode_single(c);
                if k + 1 >= m && occurs_at(s@, p@, k + 1 - m) {
                    lemma_full_match_occurs(s@, k + 1, p@);
                    lemma_suffix_match_extend(s@, k as int, p@, m - 1);
                }
            }
            loop
                invariant_except_break
                    -1 <= pattern_index < m,
                    pattern_index >= 0 ==> matches_suffix(s@, k as int, p@, pattern_index as int),
                    forall|b: int| pattern_index < b < m && #[trigger] matches_suffix(s@, k as int, p@, b)
                        && p@[b] == c ==> b + 1 == m,
                    pushed ==> pattern_index < m - 1,
                    pushed ==> is_occurrence_list(cs, s@, p@, k + 2 - m),
                    !pushed ==> is_occurrence_list(cs, s@, p@, k + 1 - m),
                    !pushed && k + 1 >= m && occurs_at(s@, p@, k + 1 - m) ==> pattern_index == m - 1,
                    result@ == byte_offsets(s@, cs),
                invariant
                    s@ == text@,
                    total == encode_utf8(s@).len(),
                    p@ == self@,
                    m == p@.len(),
                    is_next_table(p@, self.next@),
                    self.t_str_len == encode_utf8(p@).len(),
                    m < isize::MAX,
                    k < s@.len(),
                    c == s@[k as int],
                    byte_i == byte_offset(s@, k as int),
                    w == encode_utf8(seq![c]).len(),
                ensures
                    0 <= pattern_index < m,
                    matches_suffix(s@, k + 1, p@, pattern_index as int),
                    forall|b: int| pattern_index < b < m ==> !#[trigger] matches_suffix(s@, k + 1, p@, b),
                    is_occurrence_list(cs, s@, p@, k + 2 - m),
                    result@ == byte_offsets(s@, cs),
                decreases pattern_index + 1,
            {
                if pattern_index == -1 {
                    proof {
                        assert forall|b: int| 0 < b < m implies !#[trigger] matches_suffix(s@, k + 1, p@, b) by {
                            if b <= k + 1 {
                                lemma_suffix_match_extend(s@, k as int, p@, b - 1);
                            }
                        }
                        if !pushed && k + 1 >= m {
                            crate::spm_spec::lemma_occurrence_list_extend(cs, s@, p@, k + 1 - m, k + 2 - m);
                        }
                        if !pushed && k + 1 < m {
                            crate::spm_spec::lemma_occurrence_list_extend(cs, s@, p@, k + 1 - m, k + 2 - m);
                        }
                    }
                    pattern_index = 0;
                    break;
                }
                let pi = pattern_index as usize;
                if p[pi] == c {
                    if pi == m - 1 {
                        proof {
                            lemma_suffix_match_extend(s@, k as int, p@, pi as int);
                            lemma_full_match_occurs(s@, k + 1, p@);
                            let j = (k + 1 - m) as usize;
                            lemma_byte_offset_split(s@, j as int, k + 1);
                            lemma_byte_offset_split(s@, k as int, k + 1);
                            assert(s@.subrange(j as int, k + 1) == p@);
                            assert(s@.subrange(k as int, k + 1) == seq![c]);
                            crate::spm_spec::lemma_occurrence_list_push(cs, s@, p@, j);
                            lemma_byte_offset_split(s@, k + 1, s@.len() as int);
                            assert(byte_offsets(s@, cs.push(j)) =~= byte_offsets(s@, cs).push(byte_offset(s@, j as int) as usize));
                            cs = cs.push(j);
                        }
                        result.push(byte_i + w - self.t_str_len);
                        let nb = self.next[pi];
                        proof {
                            pushed = true;
                            if m >= 2 {
                                assert(is_longest_proper_border(p@, m - 1, nb as int));
                                lemma_border_suffix_match(s@, k as int, p@, m - 1, nb as int);
                                assert forall|b: int| nb < b < m && #[trigger] matches_suffix(s@, k as int, p@, b)
                                    && p@[b] == c implies b + 1 == m by {
                                    if b < m - 1 {
                                        lemma_suffix_matches_border(s@, k as int, p@, m - 1, b);
                                    }
                                }
                            }
                        }
                        pattern_index = nb;
                    } else {
                        proof {
                            lemma_suffix_match_extend(s@, k as int, p@, pi as int);
                            assert forall|b: int| pi + 1 < b < m implies !#[trigger] matches_suffix(s@, k + 1, p@, b) by {
                                if b <= k + 1 {
                                    lemma_suffix_match_extend(s@, k as int, p@, b - 1);
                                }
                            }
                            if !pushed {
                                if k + 1 >= m && occurs_at(s@, p@, k + 1 - m) {
                                    assert(false);
                                }
                                crate::spm_spec::lemma_occurrence_list_extend(cs, s@, p@, k + 1 - m, k + 2 - m);
                            }
                        }
                        pattern_index = pattern_index + 1;
                        break;
                    }
                } else {
                    let nb = self.next[pi];
                    proof {
                        if pi >= 1 {
                            assert(is_longest_proper_border(p@, pi as int, nb as int));
                            lemma_border_suffix_match(s@, k as int, p@, pi as int, nb as int);
                            assert forall|b: int| nb < b < m && #[trigger] matches_suffix(s@, k as int, p@, b)
                                && p@[b] == c implies b + 1 == m by {
                                if b < pi {
                                    lemma_suffix_matches_border(s@, k as int, p@, pi as int, b);
                                }
                            }
                        }
                        if !pushed && k + 1 >= m && occurs_at(s@, p@, k + 1 - m) {
                            lemma_full_match_occurs(s@, k + 1, p@);
                            lemma_suffix_match_extend(s@, k as int, p@, m - 1);
                            assert(pi == m - 1);
                            assert(false);
                        }
                    }
                    pattern_index = nb;
                }
            }
            proof {
                lemma_byte_offset_split(s@, k as int, k + 1);
                assert(s@.subrange(k as int, k + 1) == seq![c]);
                lemma_byte_offset_split(s@, k + 1, s@.len() as int);
            }
            byte_i = byte_i + w;
            k = k + 1;
        }
        proof {
            if k - m + 1 < 0 {
                crate::spm_spec::lemma_occurrence_list_extend(cs, s@, p@, k - m + 1, 0);
                crate::spm_spec::lemma_occurrence_list_done(cs, s@, p@, 0);
            } else {
                crate::spm_spec::lemma_occurrence_list_done(cs, s@, p@, k - m + 1);
            }
        }
        result
    }
}

} // verus!

//! Boyer-Moore searches over bytes: the simplified variant with the bad-character
//! rule only, and the full variant with the good-suffix table and Galil's rule.

use vstd::prelude::*;
use vstd::string::StringSliceAdditionalSpecFns;
use crate::spm_spec::{
    occurs_at, is_occurrence_list, is_all_occurrences, lemma_occurrence_list_extend,
    lemma_occurrence_list_push,
};
use crate::horspool::{is_horspool_table, build_horspool_table};
use crate::border::{
    is_border, is_longest_proper_border, is_period, lemma_border_trans, lemma_border_of_border,
    lemma_border_extend, lemma_border_period, lemma_empty_border,
};

verus! {



/// The jump that ends the fast skip loop once the window's last byte matches: half
/// the address space, so that `stringlen - 1 + patlen <= LARGE` and
/// `stringlen - 1 + LARGE <= usize::MAX` hold for every text that fits in memory.
pub const LARGE: usize = usize::MAX / 2 + 1;


/// The prefix function of a non-empty byte string: the longest proper border of each
/// prefix `p[..i + 1]`.
pub fn compute_pi(p: &[u8]) -> (pi: Vec<usize>)
    requires
        p@.len() >= 1,
    ensures
        pi@.len() == p@.len(),
        forall|i: int| 0 <= i < p@.len() ==> is_longest_proper_border(p@, i + 1, #[trigger] pi@[i] as int),
{
    let m = p.len();
    let mut pi: Vec<usize> = vec![0; m];
    proof {
        lemma_empty_border(p@, 1);
    }
    let mut k: usize = 0;
    let mut i: usize = 1;
    while i < m
        invariant
            m == p@.len() >= 1,
            1 <= i <= m,
            pi@.len() == m,
            k == pi@[i - 1],
            forall|c: int| 0 <= c < i ==> is_longest_proper_border(p@, c + 1, #[trigger] pi@[c] as int),
        decreases m - i,
    {
        proof {
            assert(is_longest_proper_border(p@, i as int, pi@[i - 1] as int));
        }
        while k > 0 && p[k] != p[i]
            invariant
                m == p@.len() >= 1,
                1 <= i < m,
                pi@.len() == m,
                forall|c: int| 0 <= c < i ==> is_longest_proper_border(p@, c + 1, #[trigger] pi@[c] as int),
                0 <= k < i,
                is_border(p@, i as int, k as int),
                forall|b: int| k < b < i && #[trigger] is_border(p@, i as int, b) ==> p@[b] != p@[i as int],
            decreases k,
        {
            let old_k = k;
            k = pi[k - 1];
            proof {
                let o = old_k as int;
                assert(is_longest_proper_border(p@, o, k as int));
                lemma_border_trans(p@, i as int, o, k as int);
                assert forall|b: int| k < b < i && #[trigger] is_border(p@, i as int, b) implies p@[b] != p@[i as int] by {
                    if b < o {
                        lemma_border_of_border(p@, i as int, o, b);
                    }
                }
            }
        }
        if p[k] == p[i] {
            k = k + 1;
        }
        proof {
            let ii = i as int;
            let r = k as int;
            assert forall|b2: int| r < b2 < ii + 1 implies !#[trigger] is_border(p@, ii + 1, b2) by {
                lemma_border_extend(p@, ii, b2 - 1);
            }
            if r > 0 && p@[r - 1] == p@[ii] {
                lemma_border_extend(p@, ii, r - 1);
            } else {
                lemma_empty_border(p@, ii + 1);
            }
        }
        pi.set(i, k);
        i = i + 1;
    }
    pi
}

/// The smallest period of a non-empty byte string.
pub fn compute_k(p: &[u8]) -> (k: usize)
    requires
        p@.len() >= 1,
    ensures
        is_period(p@, k as int),
        forall|d: int| 0 < d < k ==> !#[trigger] is_period(p@, d),
{
    let pi = compute_pi(p);
    let m = p.len();
    let b = pi[m - 1];
    proof {
        assert(is_longest_proper_border(p@, m as int, b as int));
        lemma_border_period(p@, b as int);
        assert forall|d: int| 0 < d < m - b implies !#[trigger] is_period(p@, d) by {
            lemma_border_period(p@, m - d);
        }
    }
    m - b
}

/// The reoccurrence of the suffix after position `i` may start at `j`: where both
/// exist its bytes agree with the suffix, and the byte before it differs from `p[i]`.
pub open spec fn rpr_ok(p: Seq<u8>, i: int, j: int) -> bool {
    &&& forall|t: int| 0 <= t < p.len() - 1 - i && 0 <= j + t ==> #[trigger] p[j + t] == p[i + 1 + t]
    &&& (j <= 0 || p[j - 1] != p[i])
}

/// `d` is the good-suffix distance of position `i`: `m - 1 - j` for the rightmost
/// plausible reoccurrence `j`, and 0 at the last position.
pub open spec fn is_delta2_entry(p: Seq<u8>, i: int, d: int) -> bool {
    let m = p.len() as int;
    if i == m - 1 {
        d == 0
    } else {
        let j = m - 1 - d;
        &&& -(m - 1 - i) <= j <= i
        &&& rpr_ok(p, i, j)
        &&& forall|j2: int| j < j2 <= i ==> !#[trigger] rpr_ok(p, i, j2)
    }
}

/// `delta2` holds the good-suffix distance of every position of `p`.
pub open spec fn is_delta2_table(p: Seq<u8>, delta2: Seq<usize>) -> bool {
    &&& delta2.len() == p.len()
    &&& forall|i: int| 0 <= i < p.len() ==> is_delta2_entry(p, i, #[trigger] delta2[i] as int)
}

/// Whether the reoccurrence condition holds for `i` and `j`.
fn check_rpr(p: &[u8], i: usize, j: isize) -> (r: bool)
    requires
        i < p@.len() - 1,
        -(p@.len() - 1 - i) <= j <= i,
        p@.len() < isize::MAX,
    ensures
        r == rpr_ok(p@, i as int, j as int),
{
    let m = p.len();
    let subpatlen = (m - 1 - i) as isize;
    let mut t: isize = 0;
    while t < subpatlen
        invariant
            i < p@.len() - 1,
            m == p@.len() < isize::MAX,
            subpatlen == m - 1 - i,
            -(m - 1 - i) <= j <= i,
            0 <= t <= subpatlen,
            forall|t2: int| 0 <= t2 < t && 0 <= j + t2 ==> #[trigger] p@[j + t2] == p@[i + 1 + t2],
        decreases subpatlen - t,
    {
        if j + t >= 0 && p[(j + t) as usize] != p[i + 1 + t as usize] {
            assert(!(p@[j + t] == p@[i + 1 + t]));
            return false;
        }
        t = t + 1;
    }
    j <= 0 || p[(j - 1) as usize] != p[i]
}

/// A compiled pattern of the simplified Boyer-Moore search.
pub struct SimplifiedBMPattern<'a> {
    pat_bytes: &'a [u8],
    delta1: [usize; 256],
}

impl<'a> View for SimplifiedBMPattern<'a> {
    type V = Seq<u8>;

    closed spec fn view(&self) -> Seq<u8> {
        self.pat_bytes@
    }
}

impl<'a> SimplifiedBMPattern<'a> {
    #[verifier::type_invariant]
    spec fn well_formed(self) -> bool {
        &&& self.pat_bytes@.len() >= 1
        &&& is_horspool_table(self.pat_bytes@, self.delta1@)
    }

    /// Compiles a non-empty pattern.
    pub fn new(pat: &'a str) -> (r: Self)
        requires
            pat.spec_bytes().len() >= 1,
        ensures
            r@ == pat.spec_bytes(),
    {
        let pat_bytes = pat.as_bytes();
        let delta1 = Self::build_delta1_table(pat_bytes);
        SimplifiedBMPattern { pat_bytes, delta1 }
    }

    /// The bad-character table: from the last position back to the last earlier
    /// occurrence of each byte.
    pub fn build_delta1_table(p: &'a [u8]) -> (d: [usize; 256])
        requires
            p@.len() >= 1,
        ensures
            is_horspool_table(p@, d@),
    {
        build_horspool_table(p)
    }

    /// The fast-loop jump for byte `c`: `LARGE` on the pattern's last byte.
    fn delta0(&self, c: u8) -> (r: usize)
        requires
            self@.len() >= 1,
            is_horspool_table(self@, self.delta1@),
        ensures
            r == (if c == self@[self@.len() - 1] { LARGE } else { self.delta1@[c as int] }),
    {
        if c == self.pat_bytes[self.pat_bytes.len() - 1] {
            LARGE
        } else {
            self.delta1[c as usize]
        }
    }

    /// Every byte position at which the pattern occurs in `string`, in increasing order.
    pub fn find_all(&self, string: &'a str) -> (r: Vec<usize>)
        requires
            string.spec_bytes().len() + self@.len() <= LARGE,
            string.spec_bytes().len() + LARGE <= usize::MAX,
        ensures
            is_all_occurrences(r@, string.spec_bytes(), self@),
    {
        proof {
            use_type_invariant(self);
        }
        let mut result: Vec<usize> = Vec::new();
        let t = string.as_bytes();
        let p = self.pat_bytes;
        let stringlen = t.len();
        let m = p.len();
        let pat_last_pos = m - 1;
        let mut string_index = pat_last_pos;
        let mut pat_index: usize;
        let ghost mut a: int = 0;
        while string_index < stringlen
            invariant_except_break
                is_occurrence_list(result@, t@, p@, a),
            invariant
                t@ == string.spec_bytes(),
                p@ == self@,
                m == p@.len() >= 1,
                pat_last_pos == m - 1,
                stringlen == t@.len(),
                stringlen + m <= LARGE,
                stringlen + LARGE <= usize::MAX,
                is_horspool_table(p@, self.delta1@),
                0 <= a <= stringlen,
                string_index == a + m - 1,
            ensures
                is_all_occurrences(result@, t@, p@),
            decreases stringlen - a,
        {
            let ghost a0 = a;
            while string_index < stringlen
                invariant
                    a0 <= a,
                    t@ == string.spec_bytes(),
                    p@ == self@,
                    m == p@.len() >= 1,
                    stringlen == t@.len(),
                    stringlen + m <= LARGE,
                    stringlen + LARGE <= usize::MAX,
                    is_horspool_table(p@, self.delta1@),
                    0 <= a <= stringlen,
                    is_occurrence_list(result@, t@, p@, a),
                    string_index < LARGE ==> string_index == a + m - 1,
                    string_index >= LARGE ==> string_index - LARGE == a + m - 1 && a + m <= stringlen
                        && t@[a + m - 1] == p@[m - 1],
                decreases stringlen - a, (if string_index < LARGE { 1int } else { 0int }),
            {
                let c = t[string_index];
                let d = self.delta0(c);
                proof {
                    if c != p@[m - 1] {
                        assert(self.delta1@[c as int] == d);
                        assert forall|b: int| a <= b < a + d implies !occurs_at(t@, p@, b) by {
                            if b == a {
                                assert(!(t@[a + (m - 1)] == p@[m - 1]));
                            } else if b + m <= t@.len() {
                                let k = a + m - 1 - b;
                                assert(t@[b + k] == c);
                                assert(m - 1 - d < k < m - 1);
                                assert(p@[k] != c);
                                assert(!(t@[b + k] == p@[k]));
                            }
                        }
                        lemma_occurrence_list_extend(result@, t@, p@, a, a + d);
                        a = a + d;
                    }
                }
                string_index = string_index + d;
            }
            if string_index < LARGE {
                proof {
                    crate::spm_spec::lemma_occurrence_list_done(result@, t@, p@, a);
                }
                break;
            }
            string_index = string_index - LARGE;
            pat_index = pat_last_pos;
            while pat_index > 0 && t[string_index] == p[pat_index]
                invariant
                    t@ == string.spec_bytes(),
                    p@ == self@,
                    m == p@.len() >= 1,
                    stringlen == t@.len(),
                    0 <= a,
                    a0 <= a,
                    a + m <= stringlen,
                    pat_index <= m - 1,
                    string_index == a + pat_index,
                    forall|k: int| pat_index < k < m ==> #[trigger] t@[a + k] == p@[k],
                decreases pat_index,
            {
                string_index = string_index - 1;
                pat_index = pat_index - 1;
            }
            if pat_index == 0 && t[string_index] == p[0] {
                proof {
                    assert(occurs_at(t@, p@, a)) by {
                        assert forall|k: int| 0 <= k < p@.len() implies #[trigger] t@[a + k] == p@[k] by {
                            if k == 0 {
                                assert(t@[a + 0] == p@[0]);
                            }
                        }
                    }
                    lemma_occurrence_list_push(result@, t@, p@, a as usize);
                    a = a + 1;
                }
                result.push(string_index);
                string_index = string_index + m;
            } else {
                let c = t[string_index];
                let d1 = self.delta1[c as usize];
                let d = if d1 > pat_last_pos - pat_index + 1 { d1 } else { pat_last_pos - pat_index + 1 };
                proof {
                    let j = pat_index as int;
                    assert(self.delta1@[c as int] == d1);
                    assert(!(t@[a + j] == p@[j]));
                    let new_a = a + j + d - (m - 1);
                    assert forall|b: int| a <= b < new_a implies !occurs_at(t@, p@, b) by {
                        if b == a {
                        } else if b + m <= t@.len() {
                            let k = a + j - b;
                            assert(t@[b + k] == c);
                            assert(m - 1 - d1 < k < m - 1);
                            assert(p@[k] != c);
                            assert(!(t@[b + k] == p@[k]));
                        }
                    }
                    lemma_occurrence_list_extend(result@, t@, p@, a, new_a);
                    a = new_a;
                }
                string_index = string_index + d;
            }
        }
        result
    }
}


/// A shift by the good-suffix distance skips no occurrence.
pub proof fn lemma_delta2_safe(t: Seq<u8>, p: Seq<u8>, a: int, i: int, d2: int)
    requires
        p.len() >= 1,
        0 <= i < p.len() - 1,
        is_delta2_entry(p, i, d2),
        0 <= a,
        a + p.len() <= t.len(),
        forall|x: int| i < x < p.len() ==> #[trigger] t[a + x] == p[x],
        t[a + i] != p[i],
    ensures
        forall|b: int| a <= b < a + i + d2 - (p.len() - 1) ==> !occurs_at(t, p, b),
{
    let m = p.len() as int;
    let j = m - 1 - d2;
    assert forall|b: int| a <= b < a + i + d2 - (m - 1) implies !occurs_at(t, p, b) by {
        if b == a {
            if occurs_at(t, p, b) {
                assert(t[a + i] == p[i]);
            }
        } else if occurs_at(t, p, b) {
            let dd = b - a;
            let j2 = i + 1 - dd;
            assert(j < j2 <= i);
            assert forall|tt: int| 0 <= tt < m - 1 - i && 0 <= j2 + tt implies #[trigger] p[j2 + tt] == p[i + 1 + tt] by {
                assert(t[b + (j2 + tt)] == p[j2 + tt]);
                assert(t[a + (i + 1 + tt)] == p[i + 1 + tt]);
            }
            if j2 > 0 {
                assert(t[b + (j2 - 1)] == p[j2 - 1]);
            }
            assert(rpr_ok(p, i, j2));
        }
    }
}

/// When the rightmost reoccurrence is the position itself, the rest of the pattern
/// repeats `p[i]`.
pub proof fn lemma_rpr_self_run(p: Seq<u8>, i: int, x: int)
    requires
        0 <= i < p.len() - 1,
        rpr_ok(p, i, i),
        i <= x < p.len(),
    ensures
        p[x] == p[i],
    decreases x - i,
{
    if x > i {
        lemma_rpr_self_run(p, i, x - 1);
        assert(p[i + (x - 1 - i)] == p[i + 1 + (x - 1 - i)]);
    }
}

/// A compiled Boyer-Moore pattern with the good-suffix table and Galil's rule.
pub struct BMPattern<'a> {
    pat_bytes: &'a [u8],
    delta1: [usize; 256],
    delta2: Vec<usize>,
    k: usize,
}

impl<'a> View for BMPattern<'a> {
    type V = Seq<u8>;

    closed spec fn view(&self) -> Seq<u8> {
        self.pat_bytes@
    }
}

impl<'a> BMPattern<'a> {
    /// The good-suffix table, by trying every reoccurrence from the rightmost.
    pub fn build_delta2_table_naive(p: &[u8]) -> (delta2: Vec<usize>)
        requires
            1 <= p@.len() < isize::MAX / 2,
        ensures
            is_delta2_table(p@, delta2@),
    {
        let patlen = p.len();
        let lastpos = patlen - 1;
        let mut delta2: Vec<usize> = Vec::new();
        let mut i: usize = 0;
        while i < patlen
            invariant
                patlen == p@.len(),
                1 <= patlen < isize::MAX / 2,
                lastpos == patlen - 1,
                i <= patlen,
                delta2@.len() == i,
                forall|i2: int| 0 <= i2 < i ==> is_delta2_entry(p@, i2, #[trigger] delta2@[i2] as int),
            decreases patlen - i,
        {
            let subpatlen = (lastpos - i) as isize;
            if subpatlen == 0 {
                delta2.push(0);
                i = i + 1;
                continue;
            }
            let mut j: isize = i as isize;
            loop
                invariant
                    patlen == p@.len(),
                    1 <= patlen < isize::MAX / 2,
                    lastpos == patlen - 1,
                    i < lastpos,
                    subpatlen == lastpos - i,
                    -subpatlen <= j <= i,
                    forall|j2: int| j < j2 <= i ==> !#[trigger] rpr_ok(p@, i as int, j2),
                ensures
                    -subpatlen <= j <= i,
                    rpr_ok(p@, i as int, j as int),
                    forall|j2: int| j < j2 <= i ==> !#[trigger] rpr_ok(p@, i as int, j2),
                decreases j + subpatlen,
            {
                if check_rpr(p, i, j) {
                    break;
                }
                if j == -subpatlen {
                    proof {
                        assert(rpr_ok(p@, i as int, j as int));
                    }
                }
                j = j - 1;
            }
            delta2.push((lastpos as isize - j) as usize);
            i = i + 1;
        }
        delta2
    }

    #[verifier::type_invariant]
    spec fn well_formed(self) -> bool {
        &&& 1 <= self.pat_bytes@.len() < isize::MAX / 2
        &&& is_horspool_table(self.pat_bytes@, self.delta1@)
        &&& is_delta2_table(self.pat_bytes@, self.delta2@)
        &&& is_period(self.pat_bytes@, self.k as int)
        &&& forall|d: int| 0 < d < self.k ==> !#[trigger] is_period(self.pat_bytes@, d)
    }

    /// Compiles a non-empty pattern.
    pub fn new(pat: &'a str) -> (r: Self)
        requires
            1 <= pat.spec_bytes().len() < isize::MAX / 2,
        ensures
            r@ == pat.spec_bytes(),
    {
        let pat_bytes = pat.as_bytes();
        let delta1 = Self::build_delta1_table(pat_bytes);
        let delta2 = Self::build_delta2_table_naive(pat_bytes);
        let k = compute_k(pat_bytes);
        BMPattern { pat_bytes, delta1, delta2, k }
    }

    /// The good-suffix table of the pattern.
    pub fn delta2_table(&self) -> (r: Vec<usize>)
        ensures
            is_delta2_table(self@, r@),
    {
        proof {
            use_type_invariant(self);
        }
        self.delta2.clone()
    }

    /// The bad-character table: from the last position back to the last earlier
    /// occurrence of each byte.
    fn build_delta1_table(p: &'a [u8]) -> (d: [usize; 256])
        requires
            p@.len() >= 1,
        ensures
            is_horspool_table(p@, d@),
    {
        build_horspool_table(p)
    }

    /// The fast-loop jump for byte `c`: `LARGE` on the pattern's last byte.
    fn delta0(&self, c: u8) -> (r: usize)
        requires
            self@.len() >= 1,
            is_horspool_table(self@, self.delta1@),
        ensures
            r == (if c == self@[self@.len() - 1] { LARGE } else { self.delta1@[c as int] }),
    {
        if c == self.pat_bytes[self.pat_bytes.len() - 1] {
            LARGE
        } else {
            self.delta1[c as usize]
        }
    }

    /// Every byte position at which the pattern occurs in `string`, in increasing order.
    pub fn find_all(&self, string: &'a str) -> (r: Vec<usize>)
        requires
            string.spec_bytes().len() + self@.len() <= LARGE,
            string.spec_bytes().len() + LARGE <= usize::MAX,
        ensures
            is_all_occurrences(r@, string.spec_bytes(), self@),
    {
        proof {
            use_type_invariant(self);
        }
        let mut result: Vec<usize> = Vec::new();
        let t = string.as_bytes();
        let p = self.pat_bytes;
        let stringlen = t.len();
        let patlen = p.len();
        let pat_last_pos = patlen - 1;
        let mut string_index = pat_last_pos;
        let mut pat_index: usize;
        let l0 = patlen - self.k;
        let mut l: usize = 0;
        let ghost mut a: int = 0;
        while string_index < stringlen
            invariant_except_break
                is_occurrence_list(result@, t@, p@, a),
            invariant
                t@ == string.spec_bytes(),
                p@ == self@,
                patlen == p@.len(),
                1 <= patlen < isize::MAX / 2,
                pat_last_pos == patlen - 1,
                stringlen == t@.len(),
                stringlen + patlen <= LARGE,
                stringlen + LARGE <= usize::MAX,
                is_horspool_table(p@, self.delta1@),
                is_delta2_table(p@, self.delta2@),
                is_period(p@, self.k as int),
                forall|d: int| 0 < d < self.k ==> !#[trigger] is_period(p@, d),
                l0 == patlen - self.k,
                l <= l0,
                0 <= a <= stringlen,
                string_index == a + patlen - 1,
                a + l <= stringlen,
                forall|x: int| 0 <= x < l ==> #[trigger] t@[a + x] == p@[x],
            ensures
                is_all_occurrences(result@, t@, p@),
            decreases stringlen - a,
        {
            let ghost a0 = a;
            while string_index < stringlen
                invariant
                    t@ == string.spec_bytes(),
                    p@ == self@,
                    patlen == p@.len(),
                    1 <= patlen < isize::MAX / 2,
                    stringlen == t@.len(),
                    stringlen + patlen <= LARGE,
                    stringlen + LARGE <= usize::MAX,
                    is_horspool_table(p@, self.delta1@),
                    a0 <= a <= stringlen,
                    l <= l0,
                    is_occurrence_list(result@, t@, p@, a),
                    a + l <= stringlen,
                    forall|x: int| 0 <= x < l ==> #[trigger] t@[a + x] == p@[x],
                    string_index < LARGE ==> string_index == a + patlen - 1,
                    string_index >= LARGE ==> string_index - LARGE == a + patlen - 1 && a + patlen <= stringlen
                        && t@[a + patlen - 1] == p@[patlen - 1],
                decreases stringlen - a, (if string_index < LARGE { 1int } else { 0int }),
            {
                let c = t[string_index];
                let d = self.delta0(c);
                if d < LARGE {
                    l = 0;
                }
                proof {
                    if c != p@[patlen - 1] {
                        let m = patlen as int;
                        assert(self.delta1@[c as int] == d);
                        assert forall|b: int| a <= b < a + d implies !occurs_at(t@, p@, b) by {
                            if b == a {
                                assert(!(t@[a + (m - 1)] == p@[m - 1]));
                            } else if b + m <= t@.len() {
                                let kk = a + m - 1 - b;
                                assert(t@[b + kk] == c);
                                assert(m - 1 - d < kk < m - 1);
                                assert(p@[kk] != c);
                                assert(!(t@[b + kk] == p@[kk]));
                            }
                        }
                        lemma_occurrence_list_extend(result@, t@, p@, a, a + d);
                        a = a + d;
                    }
                }
                string_index = string_index + d;
            }
            if string_index < LARGE {
                proof {
                    crate::spm_spec::lemma_occurrence_list_done(result@, t@, p@, a);
                }
                break;
            }
            string_index = string_index - LARGE;
            pat_index = pat_last_pos;
            while pat_index > l && t[string_index] == p[pat_index]
                invariant
                    t@ == string.spec_bytes(),
                    p@ == self@,
                    patlen == p@.len(),
                    stringlen == t@.len(),
                    0 <= a,
                    a0 <= a,
                    a + patlen <= stringlen,
                    l <= pat_index <= patlen - 1,
                    string_index == a + pat_index,
                    t@[a + patlen - 1] == p@[patlen - 1],
                    forall|x: int| pat_index < x < patlen ==> #[trigger] t@[a + x] == p@[x],
                decreases pat_index,
            {
                string_index = string_index - 1;
                pat_index = pat_index - 1;
            }
            if pat_index == l && t[string_index] == p[pat_index] {
                proof {
                    assert(occurs_at(t@, p@, a)) by {
                        assert forall|x: int| 0 <= x < p@.len() implies #[trigger] t@[a + x] == p@[x] by {
                            if x == l {
                                assert(t@[a + l] == p@[l as int]);
                            }
                        }
                    }
                    lemma_occurrence_list_push(result@, t@, p@, a as usize);
                    let kk = self.k as int;
                    assert forall|b: int| a + 1 <= b < a + kk implies !occurs_at(t@, p@, b) by {
                        if occurs_at(t@, p@, b) {
                            let dd = b - a;
                            assert(is_period(p@, dd)) by {
                                assert forall|x: int| 0 <= x < p@.len() - dd implies #[trigger] p@[x] == p@[x + dd] by {
                                    assert(t@[b + x] == p@[x]);
                                    assert(t@[a + (x + dd)] == p@[x + dd]);
                                }
                            }
                        }
                    }
                    lemma_occurrence_list_extend(result@.push(a as usize), t@, p@, a + 1, a + kk);
                    assert forall|x: int| 0 <= x < l0 implies #[trigger] t@[a + kk + x] == p@[x] by {
                        assert(t@[a + (x + kk)] == p@[x + kk]);
                        assert(p@[x] == p@[x + kk]);
                    }
                    a = a + kk;
                }
                result.push(string_index - l);
                string_index = string_index + pat_last_pos - l + self.k;
                l = l0;
            } else {
                let c = t[string_index];
                let d1 = self.delta1[c as usize];
                let d2 = self.delta2[pat_index];
                let d = if d1 > d2 { d1 } else { d2 };
                proof {
                    let m = patlen as int;
                    let i = pat_index as int;
                    assert(self.delta1@[c as int] == d1);
                    assert(is_delta2_entry(p@, i, d2 as int));
                    assert(!(t@[a + i] == p@[i]));
                    if i == m - 1 {
                        assert(false);
                    }
                    lemma_delta2_safe(t@, p@, a, i, d2 as int);
                    // the bad-character shift
                    assert forall|b: int| a <= b < a + i + d1 - (m - 1) implies !occurs_at(t@, p@, b) by {
                        if b == a {
                        } else if b + m <= t@.len() {
                            let kk = a + i - b;
                            assert(t@[b + kk] == c);
                            assert(m - 1 - d1 < kk < m - 1);
                            assert(p@[kk] != c);
                            assert(!(t@[b + kk] == p@[kk]));
                        }
                    }
                    // progress
                    if d2 < m - i {
                        assert(rpr_ok(p@, i, i));
                        if d1 < m - i {
                            lemma_rpr_self_run(p@, i, m - 1 - d1);
                            assert(p@[m - 1 - d1] == c);
                            assert(false);
                        }
                    }
                    let new_a = a + i + d - (m - 1);
                    assert(new_a > a);
                    lemma_occurrence_list_extend(result@, t@, p@, a, new_a);
                    a = new_a;
                }
                l = 0;
                string_index = string_index + d;
            }
        }
        result
    }
}
} // verus!

//! What a pattern search returns: every position at which the pattern occurs in
//! the text, in increasing order.

use vstd::prelude::*;

verus! {

/// `p` occurs in `t` starting at position `i`.
pub open spec fn occurs_at<A>(t: Seq<A>, p: Seq<A>, i: int) -> bool {
    &&& 0 <= i
    &&& i + p.len() <= t.len()
    &&& forall|k: int| 0 <= k < p.len() ==> #[trigger] t[i + k] == p[k]
}

/// `r` lists, in increasing order, exactly the positions below `hi` at which `p` occurs in `t`.
pub open spec fn is_occurrence_list<A>(r: Seq<usize>, t: Seq<A>, p: Seq<A>, hi: int) -> bool {
    &&& forall|i: int, j: int| 0 <= i < j < r.len() ==> r[i] < r[j]
    &&& forall|i: int| 0 <= i < r.len() ==> #[trigger] r[i] < hi && occurs_at(t, p, r[i] as int)
    &&& forall|k: int| 0 <= k < hi && occurs_at(t, p, k) ==> r.contains(k as usize)
}

/// `r` lists, in increasing order, every position at which `p` occurs in `t`.
pub open spec fn is_all_occurrences<A>(r: Seq<usize>, t: Seq<A>, p: Seq<A>) -> bool {
    is_occurrence_list(r, t, p, t.len() as int + 1)
}

/// Raising the bound over positions without occurrences keeps the list complete.
pub proof fn lemma_occurrence_list_extend<A>(r: Seq<usize>, t: Seq<A>, p: Seq<A>, hi: int, hi2: int)
    requires
        is_occurrence_list(r, t, p, hi),
        hi <= hi2,
        forall|k: int| hi <= k < hi2 ==> !occurs_at(t, p, k),
    ensures
        is_occurrence_list(r, t, p, hi2),
{
}

/// Appending an occurrence at the bound extends the list by one position.
pub proof fn lemma_occurrence_list_push<A>(r: Seq<usize>, t: Seq<A>, p: Seq<A>, hi: usize)
    requires
        is_occurrence_list(r, t, p, hi as int),
        occurs_at(t, p, hi as int),
    ensures
        is_occurrence_list(r.push(hi), t, p, hi + 1),
{
    let r2 = r.push(hi);
    assert forall|k: int| 0 <= k < hi + 1 && occurs_at(t, p, k) implies r2.contains(k as usize) by {
        if k < hi {
            let i = choose|i: int| 0 <= i < r.len() && r[i] == k as usize;
            assert(r2[i] == r[i]);
        } else {
            assert(r2[r.len() as int] == hi);
        }
    }
}

/// Past the last position at which the pattern fits, the list is complete.
pub proof fn lemma_occurrence_list_done<A>(r: Seq<usize>, t: Seq<A>, p: Seq<A>, hi: int)
    requires
        is_occurrence_list(r, t, p, hi),
        hi + p.len() > t.len(),
        hi >= 0,
    ensures
        is_all_occurrences(r, t, p),
{
}

/// Whether `p` occurs in `t` at `a`, where the window fits in `t`.
pub fn matches_at(t: &[u8], p: &[u8], a: usize) -> (r: bool)
    requires
        a + p@.len() <= t@.len(),
    ensures
        r == occurs_at(t@, p@, a as int),
{
    let mut k: usize = 0;
    let tl = t.len();
    while k < p.len()
        invariant
            a + p@.len() <= t@.len(),
            tl == t@.len(),
            k <= p@.len(),
            forall|j: int| 0 <= j < k ==> #[trigger] t@[a + j] == p@[j],
        decreases p@.len() - k,
    {
        if t[a + k] != p[k] {
            assert(!(t@[a + k] == p@[k as int]));
            return false;
        }
        k = k + 1;
    }
    true
}

/// Whether the first `len` bytes of `p` occur in `t` at `a`.
pub fn prefix_matches_at(t: &[u8], p: &[u8], a: usize, len: usize) -> (r: bool)
    requires
        len <= p@.len(),
        a + len <= t@.len(),
    ensures
        r == forall|k: int| 0 <= k < len ==> #[trigger] t@[a + k] == p@[k],
{
    let mut k: usize = 0;
    let tl = t.len();
    while k < len
        invariant
            len <= p@.len(),
            a + len <= t@.len(),
            tl == t@.len(),
            k <= len,
            forall|j: int| 0 <= j < k ==> #[trigger] t@[a + j] == p@[j],
        decreases len - k,
    {
        if t[a + k] != p[k] {
            assert(!(t@[a + k] == p@[k as int]));
            return false;
        }
        k = k + 1;
    }
    true
}

} // verus!

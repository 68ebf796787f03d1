//! Lexicographic comparison of sequences.

use vstd::prelude::*;
use std::cmp::Ordering;

verus! {

/// The lexicographic order of `a` and `b`: element by element, a proper prefix first.
pub open spec fn lex_order(a: Seq<u64>, b: Seq<u64>) -> Ordering
    decreases a.len(),
{
    if a.len() == 0 {
        if b.len() == 0 {
            Ordering::Equal
        } else {
            Ordering::Less
        }
    } else if b.len() == 0 {
        Ordering::Greater
    } else if a[0] < b[0] {
        Ordering::Less
    } else if a[0] > b[0] {
        Ordering::Greater
    } else {
        lex_order(a.drop_first(), b.drop_first())
    }
}

/// The elements of `s` from position `i` on.
pub open spec fn tail_from(s: Seq<u64>, i: usize) -> Seq<u64> {
    s.skip(i as int)
}

/// Dropping the first element of a tail gives the next tail.
pub proof fn lemma_tail_step(s: Seq<u64>, i: usize)
    requires
        i < s.len(),
        i + 1 <= usize::MAX,
    ensures
        tail_from(s, i).drop_first() == tail_from(s, (i + 1) as usize),
        tail_from(s, i).len() > 0,
        tail_from(s, i)[0] == s[i as int],
{
    assert(tail_from(s, i).drop_first() =~= tail_from(s, (i + 1) as usize));
}

/// The tail from 0 is the whole sequence.
pub proof fn lemma_tail_zero(s: Seq<u64>)
    ensures
        tail_from(s, 0) == s,
{
    assert(tail_from(s, 0) =~= s);
}

/// Compares `l1` and `l2` in lexicographic order.
pub fn lexi_cmp(l1: &[u64], l2: &[u64]) -> (r: Ordering)
    ensures
        r == lex_order(l1@, l2@),
{
    let mut i: usize = 0;
    proof {
        lemma_tail_zero(l1@);
        lemma_tail_zero(l2@);
    }
    while i < l1.len() && i < l2.len()
        invariant
            i <= l1@.len(),
            i <= l2@.len(),
            lex_order(l1@, l2@) == lex_order(tail_from(l1@, i), tail_from(l2@, i)),
        decreases l1@.len() - i,
    {
        proof {
            lemma_tail_step(l1@, i);
            lemma_tail_step(l2@, i);
        }
        let x = l1[i];
        let y = l2[i];
        if x < y {
            return Ordering::Less;
        }
        if x > y {
            return Ordering::Greater;
        }
        i = i + 1;
    }
    if l1.len() < l2.len() {
        Ordering::Less
    } else if l1.len() > l2.len() {
        Ordering::Greater
    } else {
        Ordering::Equal
    }
}

/// Two sequences that agree before position `i` and differ there are ordered
/// by their elements at `i`.
proof fn lemma_lex_first_difference(a: Seq<u64>, b: Seq<u64>, i: int)
    requires
        0 <= i < a.len(),
        i < b.len(),
        a[i] != b[i],
        forall|j: int| 0 <= j < i ==> a[j] == b[j],
    ensures
        lex_order(a, b) == (if a[i] < b[i] { Ordering::Less } else { Ordering::Greater }),
    decreases i,
{
    if i > 0 {
        assert(a[0] == b[0]);
        assert forall|j: int| 0 <= j < i - 1 implies a.drop_first()[j] == b.drop_first()[j] by {
            assert(a[j + 1] == b[j + 1]);
        }
        lemma_lex_first_difference(a.drop_first(), b.drop_first(), i - 1);
    }
}

/// A sequence that begins another comes first, or ties where they are equal.
proof fn lemma_lex_prefix(a: Seq<u64>, b: Seq<u64>)
    requires
        a.len() <= b.len(),
        forall|j: int| 0 <= j < a.len() ==> a[j] == b[j],
    ensures
        lex_order(a, b) == (if a.len() < b.len() { Ordering::Less } else { Ordering::Equal }),
    decreases a.len(),
{
    if a.len() > 0 {
        assert(a[0] == b[0]);
        assert forall|j: int| 0 <= j < a.len() - 1 implies a.drop_first()[j] == b.drop_first()[j] by {
            assert(a[j + 1] == b[j + 1]);
        }
        lemma_lex_prefix(a.drop_first(), b.drop_first());
    }
}

/// A sequence that another one begins comes after it.
proof fn lemma_lex_extension(a: Seq<u64>, b: Seq<u64>)
    requires
        b.len() < a.len(),
        forall|j: int| 0 <= j < b.len() ==> a[j] == b[j],
    ensures
        lex_order(a, b) == Ordering::Greater,
    decreases b.len(),
{
    if b.len() > 0 {
        assert(a[0] == b[0]);
        assert forall|j: int| 0 <= j < b.len() - 1 implies a.drop_first()[j] == b.drop_first()[j] by {
            assert(a[j + 1] == b[j + 1]);
        }
        lemma_lex_extension(a.drop_first(), b.drop_first());
    }
}

/// `lexi_cmp` decides by the first position where the two sequences differ:
/// there, the smaller element belongs to the smaller sequence, whatever the
/// lengths.
pub proof fn law_lexi_cmp_first_difference(l1: &[u64], l2: &[u64], r: Ordering, i: int)
    requires
        lexi_cmp.ensures((l1, l2), r),
        0 <= i < l1@.len(),
        i < l2@.len(),
        l1@[i] != l2@[i],
        forall|j: int| 0 <= j < i ==> l1@[j] == l2@[j],
    ensures
        r == Ordering::Less <==> l1@[i] < l2@[i],
        r == Ordering::Greater <==> l1@[i] > l2@[i],
        r != Ordering::Equal,
{
    lemma_lex_first_difference(l1@, l2@, i);
}

/// Where one sequence begins the other, `lexi_cmp` compares their lengths: the
/// shorter comes first, and equal sequences tie.
pub proof fn law_lexi_cmp_prefix(l1: &[u64], l2: &[u64], r: Ordering)
    requires
        lexi_cmp.ensures((l1, l2), r),
        forall|j: int| 0 <= j < l1@.len() && 0 <= j < l2@.len() ==> l1@[j] == l2@[j],
    ensures
        r == Ordering::Less <==> l1@.len() < l2@.len(),
        r == Ordering::Greater <==> l1@.len() > l2@.len(),
        r == Ordering::Equal <==> l1@ == l2@,
{
    if l1@.len() <= l2@.len() {
        lemma_lex_prefix(l1@, l2@);
        if l1@.len() == l2@.len() {
            assert(l1@ =~= l2@);
        }
    } else {
        lemma_lex_extension(l1@, l2@);
    }
}

/// Swapping the arguments of `lexi_cmp` reverses its answer.
pub proof fn law_lexi_cmp_swap(l1: &[u64], l2: &[u64], r12: Ordering, r21: Ordering)
    requires
        lexi_cmp.ensures((l1, l2), r12),
        lexi_cmp.ensures((l2, l1), r21),
    ensures
        r12 == Ordering::Less <==> r21 == Ordering::Greater,
        r12 == Ordering::Equal <==> r21 == Ordering::Equal,
        r12 == Ordering::Equal <==> l1@ == l2@,
{
    crate::laws::law_lex_order_antisymmetric(l1@, l2@);
    crate::laws::law_lex_order_antisymmetric(l2@, l1@);
}

} // verus!

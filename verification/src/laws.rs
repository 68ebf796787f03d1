//! Properties that hold across the library's functions: the searches, sorts and
//! sieves have one right answer each, so every algorithm for one question gives
//! the same result; maps read back what was written; filters have no false
//! negatives.

use vstd::prelude::*;
use crate::spm_spec::{is_all_occurrences, occurs_at};
use crate::prime_spec::{is_prime, is_prime_seq};
use crate::sort::sorted;
use crate::border::{is_border, is_longest_proper_border};
use crate::kmp::{is_next_table, is_all_byte_occurrences, byte_offsets};
use crate::bloom_filter::{bit64, insert_slot};
use crate::bytes_set::bit128;
use crate::algs::lex_order;
use core::cmp::Ordering;

verus! {

broadcast use vstd::seq_lib::group_to_multiset_ensures;

/// Strictly increasing lists with the same elements are equal.
pub proof fn lemma_increasing_unique(a: Seq<usize>, b: Seq<usize>)
    requires
        forall|i: int, j: int| 0 <= i < j < a.len() ==> a[i] < a[j],
        forall|i: int, j: int| 0 <= i < j < b.len() ==> b[i] < b[j],
        forall|x: usize| a.contains(x) <==> b.contains(x),
    ensures
        a == b,
    decreases a.len() + b.len(),
{
    if a.len() == 0 {
        if b.len() > 0 {
            assert(b.contains(b[0]));
        }
        assert(a =~= b);
    } else if b.len() == 0 {
        assert(a.contains(a[0]));
    } else {
        let la = a.last();
        let lb = b.last();
        assert(a.contains(la));
        assert(b.contains(lb));
        let ia = choose|i: int| 0 <= i < a.len() && a[i] == lb;
        let ib = choose|i: int| 0 <= i < b.len() && b[i] == la;
        if la < lb {
            assert(a[ia] <= la) by {
                if ia < a.len() - 1 {
                    assert(a[ia] < a[a.len() - 1]);
                }
            }
        }
        if lb < la {
            assert(b[ib] <= lb) by {
                if ib < b.len() - 1 {
                    assert(b[ib] < b[b.len() - 1]);
                }
            }
        }
        assert(la == lb);
        let a2 = a.drop_last();
        let b2 = b.drop_last();
        assert forall|x: usize| a2.contains(x) <==> b2.contains(x) by {
            if a2.contains(x) {
                let i = choose|i: int| 0 <= i < a2.len() && a2[i] == x;
                assert(a[i] < la);
                assert(b.contains(x));
                let j = choose|j: int| 0 <= j < b.len() && b[j] == x;
                assert(j != b.len() - 1);
                assert(b2[j] == x);
            }
            if b2.contains(x) {
                let i = choose|i: int| 0 <= i < b2.len() && b2[i] == x;
                assert(b[i] < lb);
                assert(a.contains(x));
                let j = choose|j: int| 0 <= j < a.len() && a[j] == x;
                assert(j != a.len() - 1);
                assert(a2[j] == x);
            }
        }
        lemma_increasing_unique(a2, b2);
        assert(a =~= a2.push(la));
        assert(b =~= b2.push(lb));
    }
}

/// A pattern search has one right answer: two lists of every occurrence of `p`
/// in `t`, in increasing order, are the same list. So all the searches of this
/// library (Horspool, Sunday, B5S, Boyer-Moore, simplified Boyer-Moore) return
/// the same positions for the same pattern and text.
pub proof fn law_occurrences_unique<A>(r1: Seq<usize>, r2: Seq<usize>, t: Seq<A>, p: Seq<A>)
    requires
        is_all_occurrences(r1, t, p),
        is_all_occurrences(r2, t, p),
    ensures
        r1 == r2,
{
    assert forall|x: usize| r1.contains(x) <==> r2.contains(x) by {
        if r1.contains(x) {
            let i = choose|i: int| 0 <= i < r1.len() && r1[i] == x;
            assert(occurs_at(t, p, r1[i] as int));
        }
        if r2.contains(x) {
            let i = choose|i: int| 0 <= i < r2.len() && r2[i] == x;
            assert(occurs_at(t, p, r2[i] as int));
        }
    }
    lemma_increasing_unique(r1, r2);
}

/// The Knuth-Morris-Pratt search has one right answer too: two lists of the
/// byte offsets of every occurrence are the same list.
pub proof fn law_byte_occurrences_unique(r1: Seq<usize>, r2: Seq<usize>, text: Seq<char>, p: Seq<char>)
    requires
        is_all_byte_occurrences(r1, text, p),
        is_all_byte_occurrences(r2, text, p),
    ensures
        r1 == r2,
{
    let cs1 = choose|cs: Seq<usize>| is_all_occurrences(cs, text, p) && r1 == #[trigger] byte_offsets(text, cs);
    let cs2 = choose|cs: Seq<usize>| is_all_occurrences(cs, text, p) && r2 == #[trigger] byte_offsets(text, cs);
    law_occurrences_unique(cs1, cs2, text, p);
}

/// A sort has one right answer: two sorted arrangements of the same elements are
/// equal, so heapsort and merge sort give the same result.
pub proof fn law_sorted_unique(a: Seq<u64>, b: Seq<u64>)
    requires
        sorted(a),
        sorted(b),
        a.to_multiset() == b.to_multiset(),
    ensures
        a == b,
    decreases a.len(),
{
    if a.len() == 0 {
        assert(b.to_multiset().len() == 0);
        assert(b.len() == 0);
        assert(a =~= b);
    } else {
        assert(b.len() == a.len()) by {
            assert(a.to_multiset().len() == a.len());
            assert(b.to_multiset().len() == b.len());
        }
        let la = a.last();
        let lb = b.last();
        assert(a.to_multiset().count(la) > 0) by {
            assert(a.contains(la));
        }
        assert(b.to_multiset().count(lb) > 0) by {
            assert(b.contains(lb));
        }
        assert(b.contains(la));
        assert(a.contains(lb));
        let i = choose|i: int| 0 <= i < b.len() && b[i] == la;
        let j = choose|j: int| 0 <= j < a.len() && a[j] == lb;
        assert(b[i] <= lb);
        assert(a[j] <= la);
        assert(la == lb);
        let a2 = a.drop_last();
        let b2 = b.drop_last();
        assert(a =~= a2.push(la));
        assert(b =~= b2.push(lb));
        assert(a2.to_multiset() =~= b2.to_multiset()) by {
            assert(a.to_multiset() == a2.to_multiset().insert(la));
            assert(b.to_multiset() == b2.to_multiset().insert(lb));
            assert forall|x: u64| a2.to_multiset().count(x) == b2.to_multiset().count(x) by {
                assert(a.to_multiset().count(x) == b.to_multiset().count(x));
                vstd::multiset::lemma_insert_increases_count_by_1(a2.to_multiset(), la);
                vstd::multiset::lemma_insert_increases_count_by_1(b2.to_multiset(), la);
                vstd::multiset::lemma_insert_other_elements_unchanged(a2.to_multiset(), la, x);
                vstd::multiset::lemma_insert_other_elements_unchanged(b2.to_multiset(), la, x);
            }
        }
        law_sorted_unique(a2, b2);
    }
}

/// A sieve has one right answer: two increasing lists of exactly the primes in
/// `(lo, hi]` are equal, so every sieve of this library returns the same primes
/// up to a bound.
pub proof fn law_primes_unique(a: Seq<usize>, b: Seq<usize>, lo: int, hi: int)
    requires
        is_prime_seq(a, lo, hi),
        is_prime_seq(b, lo, hi),
    ensures
        a == b,
{
    assert forall|x: usize| a.contains(x) <==> b.contains(x) by {
        if a.contains(x) {
            let i = choose|i: int| 0 <= i < a.len() && a[i] == x;
            assert(lo < a[i] <= hi && is_prime(a[i] as int));
        }
        if b.contains(x) {
            let i = choose|i: int| 0 <= i < b.len() && b[i] == x;
            assert(lo < b[i] <= hi && is_prime(b[i] as int));
        }
    }
    lemma_increasing_unique(a, b);
}

/// The failure table of a pattern has one right value, so both ways of building
/// it (`Naive`, `Improved`) give the same table.
pub proof fn law_next_table_unique(p: Seq<char>, n1: Seq<isize>, n2: Seq<isize>)
    requires
        is_next_table(p, n1),
        is_next_table(p, n2),
    ensures
        n1 == n2,
{
    assert forall|c: int| 0 <= c < n1.len() implies n1[c] == n2[c] by {
        if c >= 1 {
            assert(is_longest_proper_border(p, c, n1[c] as int));
            assert(is_longest_proper_border(p, c, n2[c] as int));
            if n1[c] < n2[c] {
                assert(!is_border(p, c, n2[c] as int));
            }
            if n2[c] < n1[c] {
                assert(!is_border(p, c, n1[c] as int));
            }
        }
    }
    assert(n1 =~= n2);
}

/// A byte Bloom filter has no false negatives: after a byte is inserted (its bit
/// set), looking it up finds its bit set, whatever else was set before.
pub proof fn law_bytes_bloom_no_false_negative(bits: u64, x: u8)
    ensures
        bit64(bits | (1u64 << ((x & 63u8) as u64)), (x & 63u8) as u64),
{
    assert(x & 63u8 < 64u8) by (bit_vector);
    crate::bloom_filter::lemma_set_bit64(bits, (x & 63u8) as u64, (x & 63u8) as u64);
}

/// The `k`-hash byte filter finds every byte it inserted, where the hashes of the
/// byte stay below 255: insertion sets the bits `((x + i) % 255) % 64` and lookup
/// reads the bits `(x + i) % 64`, which agree there. (Past that they part: with
/// `k = 1`, inserting 255 sets bit 0 and looking it up reads bit 63.)
pub proof fn law_bloom64_no_false_negative(old_bits: u64, new_bits: u64, k: u8, x: u8)
    requires
        x + k <= 255,
        forall|t: u64| t < 64 ==> #[trigger] bit64(new_bits, t) == (bit64(old_bits, t)
            || exists|i: int| 0 <= i < k && t == #[trigger] insert_slot(x, i)),
    ensures
        forall|i: int| 0 <= i < k ==> #[trigger] bit64(new_bits, ((x + i) % 64) as u64),
{
    assert forall|i: int| 0 <= i < k implies #[trigger] bit64(new_bits, ((x + i) % 64) as u64) by {
        let t = ((x + i) % 64) as u64;
        assert(insert_slot(x, i) == t);
        assert(bit64(new_bits, t));
    }
}

/// A 128-bit byte filter or set finds every byte it was given: setting bit `s`
/// leaves bit `s` set.
pub proof fn law_bytes128_no_false_negative(bits: u128, s: u8)
    requires
        s < 128,
    ensures
        bit128(bits | (1u128 << s), s),
{
    crate::bytes_set::lemma_set_bit128(bits, s, s);
}

/// The low seven bits of a byte are below 128.
proof fn lemma_low_seven_bits(b: u8)
    ensures
        b & 127u8 < 128,
{
    assert(b & 127u8 < 128) by (bit_vector);
}

/// A bit once set stays set through the later adds.
proof fn lemma_bloom_bit_stays(masks: Seq<u128>, s: Seq<u8>, t: u8, i: int)
    requires
        masks.len() == s.len() + 1,
        forall|k: int| 0 <= k < s.len() ==> #[trigger] masks[k + 1] == masks[k] | (1u128 << (s[k] & 127u8)),
        0 <= i <= s.len(),
        t < 128,
        bit128(masks[i], t),
    ensures
        bit128(masks[s.len() as int], t),
    decreases s.len() - i,
{
    if i < s.len() {
        let u = s[i] & 127u8;
        lemma_low_seven_bits(s[i]);
        crate::bytes_set::lemma_set_bit128(masks[i], u, t);
        assert(masks[i + 1] == masks[i] | (1u128 << u));
        lemma_bloom_bit_stays(masks, s, t, i + 1);
    }
}

/// A byte filter finds every byte that was added to it, however many adds came
/// after: where `masks[i + 1]` is the mask after adding `s[i]` to the filter
/// whose mask is `masks[i]`, the last mask has the bit of each byte of `s` set.
pub proof fn law_bloom_filter_no_false_negative(masks: Seq<u128>, s: Seq<u8>, j: int)
    requires
        masks.len() == s.len() + 1,
        forall|i: int| 0 <= i < s.len() ==> #[trigger] masks[i + 1] == masks[i] | (1u128 << (s[i] & 127u8)),
        0 <= j < s.len(),
    ensures
        bit128(masks[s.len() as int], s[j] & 127u8),
{
    let t = s[j] & 127u8;
    lemma_low_seven_bits(s[j]);
    crate::bytes_set::lemma_set_bit128(masks[j], t, t);
    assert(masks[j + 1] == masks[j] | (1u128 << t));
    lemma_bloom_bit_stays(masks, s, t, j + 1);
}

/// The set after the first `i` inserts holds exactly the first `i` bytes.
proof fn lemma_bytes_set_prefix(sets: Seq<Set<u8>>, s: Seq<u8>, y: u8, i: int)
    requires
        sets.len() == s.len() + 1,
        sets[0] == Set::<u8>::empty(),
        forall|k: int| 0 <= k < s.len() ==> #[trigger] sets[k + 1] == sets[k].insert(s[k]),
        0 <= i <= s.len(),
    ensures
        sets[i].contains(y) <==> s.subrange(0, i).contains(y),
    decreases i,
{
    if i > 0 {
        let k = i - 1;
        lemma_bytes_set_prefix(sets, s, y, k);
        assert(sets[k + 1] == sets[k].insert(s[k]));
        assert(s.subrange(0, i) =~= s.subrange(0, k).push(s[k]));
        if y == s[k] {
            assert(s.subrange(0, i)[k] == y);
        }
        if s.subrange(0, k).contains(y) {
            let w = choose|w: int| 0 <= w < k && s.subrange(0, k)[w] == y;
            assert(s.subrange(0, i)[w] == y);
        }
        if s.subrange(0, i).contains(y) && y != s[k] {
            let w = choose|w: int| 0 <= w < i && s.subrange(0, i)[w] == y;
            assert(s.subrange(0, k)[w] == y);
        }
    } else {
        assert(s.subrange(0, 0) =~= Seq::<u8>::empty());
    }
}

/// A byte set holds exactly the bytes inserted into it: where `sets[0]` is
/// empty and `sets[i + 1]` is `sets[i]` after inserting `s[i]`, the last set
/// holds a byte exactly when it occurs in `s` (no false positives, no false
/// negatives).
pub proof fn law_bytes_set_exact(sets: Seq<Set<u8>>, s: Seq<u8>, y: u8)
    requires
        sets.len() == s.len() + 1,
        sets[0] == Set::<u8>::empty(),
        forall|i: int| 0 <= i < s.len() ==> #[trigger] sets[i + 1] == sets[i].insert(s[i]),
    ensures
        sets[s.len() as int].contains(y) <==> s.contains(y),
{
    lemma_bytes_set_prefix(sets, s, y, s.len() as int);
    assert(s.subrange(0, s.len() as int) =~= s);
}

/// A map reads back what was written: after `k` is set to `v`, `k` holds `v` and
/// every other key holds what it held; after `k` is removed, it holds nothing and
/// every other key is as it was. (The contracts of the trees' `insert`, `remove`
/// and `get` are stated in these terms.)
pub proof fn law_read_after_write<K, V>(m: Map<K, V>, k: K, v: V, q: K)
    ensures
        m.insert(k, v).dom().contains(k) && m.insert(k, v)[k] == v,
        q != k ==> (m.insert(k, v).dom().contains(q) == m.dom().contains(q)),
        q != k && m.dom().contains(q) ==> m.insert(k, v)[q] == m[q],
        !m.remove(k).dom().contains(k),
        q != k ==> (m.remove(k).dom().contains(q) == m.dom().contains(q)),
        q != k && m.dom().contains(q) ==> m.remove(k)[q] == m[q],
{
}

/// Lexicographic order is antisymmetric: `a` comes before `b` exactly when `b`
/// comes after `a`, and they compare equal exactly when they are equal.
pub proof fn law_lex_order_antisymmetric(a: Seq<u64>, b: Seq<u64>)
    ensures
        (lex_order(a, b) == Ordering::Less) == (lex_order(b, a) == Ordering::Greater),
        (lex_order(a, b) == Ordering::Equal) == (a == b),
    decreases a.len(),
{
    if a.len() > 0 && b.len() > 0 && a[0] == b[0] {
        law_lex_order_antisymmetric(a.drop_first(), b.drop_first());
        if a.drop_first() == b.drop_first() {
            assert(a =~= seq![a[0]] + a.drop_first());
            assert(b =~= seq![b[0]] + b.drop_first());
        }
        if a == b {
            assert(a.drop_first() == b.drop_first());
        }
    } else if a.len() == 0 && b.len() == 0 {
        assert(a =~= b);
    }
}

} // verus!

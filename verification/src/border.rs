//! Borders of a sequence's prefixes: a border of `p[..len]` of length `b` is a
//! prefix of length `b` that is also its suffix. The failure functions of KMP and
//! the prefix function are tables of longest proper borders.

use vstd::prelude::*;

verus! {

/// `p[..len]` has a border of length `b`.
pub open spec fn is_border<A>(p: Seq<A>, len: int, b: int) -> bool {
    &&& 0 <= b <= len <= p.len()
    &&& forall|i: int| 0 <= i < b ==> #[trigger] p[i] == p[len - b + i]
}

/// `b` is the longest proper border of `p[..len]`.
pub open spec fn is_longest_proper_border<A>(p: Seq<A>, len: int, b: int) -> bool {
    &&& b < len
    &&& is_border(p, len, b)
    &&& forall|b2: int| b < b2 < len ==> !#[trigger] is_border(p, len, b2)
}

/// `d` is a period of `p`: `p[i] == p[i + d]` wherever both exist.
pub open spec fn is_period<A>(p: Seq<A>, d: int) -> bool {
    &&& 0 < d <= p.len()
    &&& forall|i: int| 0 <= i < p.len() - d ==> #[trigger] p[i] == p[i + d]
}

/// The empty border.
pub proof fn lemma_empty_border<A>(p: Seq<A>, len: int)
    requires
        0 <= len <= p.len(),
    ensures
        is_border(p, len, 0),
{
}

/// A border of a border is a border.
pub proof fn lemma_border_trans<A>(p: Seq<A>, len: int, b: int, c: int)
    requires
        is_border(p, len, b),
        is_border(p, b, c),
    ensures
        is_border(p, len, c),
{
    assert forall|i: int| 0 <= i < c implies #[trigger] p[i] == p[len - c + i] by {
        assert(p[i] == p[b - c + i]);
        assert(p[b - c + i] == p[len - b + (b - c + i)]);
    }
}

/// A shorter border is a border of a longer one.
pub proof fn lemma_border_of_border<A>(p: Seq<A>, len: int, b: int, c: int)
    requires
        is_border(p, len, b),
        is_border(p, len, c),
        c <= b,
    ensures
        is_border(p, b, c),
{
    assert forall|i: int| 0 <= i < c implies #[trigger] p[i] == p[b - c + i] by {
        assert(p[i] == p[len - c + i]);
        assert(p[b - c + i] == p[len - b + (b - c + i)]);
    }
}

/// A border of `p[..len + 1]` of length `b + 1` is a border of `p[..len]` of length `b`
/// followed by equal elements.
pub proof fn lemma_border_extend<A>(p: Seq<A>, len: int, b: int)
    requires
        0 <= b <= len,
        len + 1 <= p.len(),
    ensures
        is_border(p, len + 1, b + 1) <==> (is_border(p, len, b) && p[b] == p[len]),
{
    if is_border(p, len + 1, b + 1) {
        assert(p[b] == p[len + 1 - (b + 1) + b]);
        assert forall|i: int| 0 <= i < b implies #[trigger] p[i] == p[len - b + i] by {
            assert(p[i] == p[len + 1 - (b + 1) + i]);
        }
    }
    if is_border(p, len, b) && p[b] == p[len] {
        assert forall|i: int| 0 <= i < b + 1 implies #[trigger] p[i] == p[len + 1 - (b + 1) + i] by {
            if i < b {
                assert(p[i] == p[len - b + i]);
            }
        }
    }
}

/// Borders of the whole sequence are the complements of its periods.
pub proof fn lemma_border_period<A>(p: Seq<A>, b: int)
    requires
        0 <= b < p.len(),
    ensures
        is_border(p, p.len() as int, b) <==> is_period(p, p.len() - b),
{
    let m = p.len() as int;
    if is_border(p, m, b) {
        assert forall|i: int| 0 <= i < m - (m - b) implies #[trigger] p[i] == p[i + (m - b)] by {
            assert(p[i] == p[m - b + i]);
        }
    }
    if is_period(p, m - b) {
        assert forall|i: int| 0 <= i < b implies #[trigger] p[i] == p[m - b + i] by {
            assert(p[i] == p[i + (m - b)]);
        }
    }
}

/// Whether `p[..len]` has a border of length `b`.
pub fn check_border(p: &Vec<char>, len: usize, b: usize) -> (r: bool)
    requires
        b <= len <= p@.len(),
    ensures
        r == is_border(p@, len as int, b as int),
{
    let mut i: usize = 0;
    while i < b
        invariant
            b <= len <= p@.len(),
            i <= b,
            forall|j: int| 0 <= j < i ==> #[trigger] p@[j] == p@[len - b + j],
        decreases b - i,
    {
        if p[i] != p[len - b + i] {
            return false;
        }
        i = i + 1;
    }
    true
}

} // verus!

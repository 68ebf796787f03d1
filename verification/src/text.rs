//! Characters of a string and their byte offsets in its UTF-8 encoding.

use vstd::prelude::*;
use vstd::utf8::{encode_utf8, encode_scalar};

verus! {

/// The byte offset of the `k`-th character of `s` in its UTF-8 encoding.
pub open spec fn byte_offset(s: Seq<char>, k: int) -> int {
    encode_utf8(s.take(k)).len() as int
}

/// Encoding distributes over concatenation.
pub proof fn lemma_encode_concat(a: Seq<char>, b: Seq<char>)
    ensures
        encode_utf8(a + b) == encode_utf8(a) + encode_utf8(b),
    decreases a.len(),
{
    if a.len() == 0 {
        assert(a + b == b);
        assert(encode_utf8(a) == Seq::<u8>::empty());
        assert(Seq::<u8>::empty() + encode_utf8(b) == encode_utf8(b));
    } else {
        lemma_encode_concat(a.drop_first(), b);
        assert((a + b).drop_first() == a.drop_first() + b);
        assert((a + b)[0] == a[0]);
        assert(encode_utf8(a + b) == encode_scalar(a[0] as u32) + encode_utf8(a.drop_first() + b));
        assert(encode_scalar(a[0] as u32) + (encode_utf8(a.drop_first()) + encode_utf8(b))
            == (encode_scalar(a[0] as u32) + encode_utf8(a.drop_first())) + encode_utf8(b));
    }
}

/// The encoding of one character.
pub proof fn lemma_encode_single(c: char)
    ensures
        encode_utf8(seq![c]) == encode_scalar(c as u32),
{
    assert(seq![c].drop_first() == Seq::<char>::empty());
    assert(encode_utf8(Seq::<char>::empty()) == Seq::<u8>::empty());
    assert(encode_scalar(c as u32) + Seq::<u8>::empty() == encode_scalar(c as u32));
}

/// The offsets grow by the width of each character, and the encoding of a slice of
/// characters takes the bytes between their offsets.
pub proof fn lemma_byte_offset_split(s: Seq<char>, j: int, k: int)
    requires
        0 <= j <= k <= s.len(),
    ensures
        byte_offset(s, k) == byte_offset(s, j) + encode_utf8(s.subrange(j, k)).len(),
        byte_offset(s, j) <= byte_offset(s, k) <= encode_utf8(s).len(),
{
    assert(s.take(k) == s.take(j) + s.subrange(j, k));
    lemma_encode_concat(s.take(j), s.subrange(j, k));
    assert(s == s.take(k) + s.subrange(k, s.len() as int));
    lemma_encode_concat(s.take(k), s.subrange(k, s.len() as int));
}

/// The number of bytes of the UTF-8 encoding of `c`.
pub fn utf8_width(c: char) -> (w: usize)
    ensures
        w == encode_scalar(c as u32).len(),
        1 <= w <= 4,
{
    let v = c as u32;
    if v <= 0x7F {
        1
    } else if v <= 0x7FF {
        2
    } else if v <= 0xFFFF {
        3
    } else {
        4
    }
}

/// The characters of `s`, in order.
pub fn str_chars(s: &str) -> (v: Vec<char>)
    ensures
        v@ == s@,
{
    broadcast use vstd::string::group_string_axioms;
    let mut v: Vec<char> = Vec::new();
    for c in it: s.chars()
        invariant
            v@ == it.seq().take(it.index()),
    {
        v.push(c);
    }
    v
}

} // verus!

//! Paths through trees written as the sequence of child positions taken, and
//! the outcome of a structural check.

use vstd::prelude::*;

verus! {

/// Why a structural check failed: a broken invariant, or another failure.
#[derive(PartialEq, Eq, Debug)]
pub enum VerifyError {
    Inv(String),
    Fail(String),
}

/// The outcome of a structural check.
pub type VerifyResult = Result<(), VerifyError>;

/// The decimal digits of `x`, with a leading `-` where it is negative.
pub open spec fn decimal_of(x: i32) -> Seq<char> {
    if x < 0 {
        seq!['-'] + crate::number::decimal_digits((-x) as nat)
    } else {
        crate::number::decimal_digits(x as nat)
    }
}

/// Writes `x` in decimal through `i32`'s `Display` (`ToString`), which gives
/// its decimal digits with a leading `-` where it is negative.
#[verifier::external_body]
fn i32_to_string(x: i32) -> (r: String)
    ensures
        r@ == decimal_of(x),
{
    x.to_string()
}

/// The positions of `s` written in decimal, joined by `-`.
pub open spec fn joined(s: Seq<i32>) -> Seq<char>
    decreases s.len(),
{
    if s.len() == 0 {
        Seq::empty()
    } else if s.len() == 1 {
        decimal_of(s[0])
    } else {
        joined(s.drop_last()) + seq!['-'] + decimal_of(s.last())
    }
}

/// A path from a root: the positions taken, in order.
pub struct RoadMap {
    data: Vec<i32>,
}

impl View for RoadMap {
    type V = Seq<i32>;

    closed spec fn view(&self) -> Seq<i32> {
        self.data@
    }
}

impl RoadMap {
    /// The empty path.
    pub fn empty() -> (r: Self)
        ensures
            r@ == Seq::<i32>::empty(),
    {
        RoadMap { data: Vec::new() }
    }

    /// Extends the path by `pos`.
    pub fn push(&mut self, pos: i32)
        ensures
            final(self)@ == old(self)@.push(pos),
    {
        self.data.push(pos);
    }

    /// This path extended by `pos`, leaving this one as it is.
    pub fn ppush(&self, pos: i32) -> (r: Self)
        ensures
            r@ == self@.push(pos),
    {
        let mut data: Vec<i32> = Vec::new();
        let mut i: usize = 0;
        while i < self.data.len()
            invariant
                i <= self.data@.len(),
                data@ == self.data@.subrange(0, i as int),
            decreases self.data@.len() - i,
        {
            data.push(self.data[i]);
            i = i + 1;
        }
        assert(data@ == self.data@);
        data.push(pos);
        RoadMap { data }
    }

    /// The number of positions.
    pub fn len(&self) -> (r: usize)
        ensures
            r == self@.len(),
    {
        self.data.len()
    }

    /// The position at step `index`.
    pub fn index(&self, index: usize) -> (r: i32)
        requires
            index < self@.len(),
        ensures
            r == self@[index as int],
    {
        self.data[index]
    }

    /// The positions in decimal, joined by `-`.
    pub fn to_string(&self) -> (r: String)
        ensures
            r@ == joined(self@),
    {
        let mut out = String::new();
        let mut i: usize = 0;
        while i < self.data.len()
            invariant
                i <= self.data@.len(),
                out@ == joined(self.data@.subrange(0, i as int)),
            decreases self.data@.len() - i,
        {
            let d = i32_to_string(self.data[i]);
            proof {
                let s = self.data@.subrange(0, i + 1);
                assert(s.drop_last() == self.data@.subrange(0, i as int));
                assert(s.last() == self.data@[i as int]);
                reveal_strlit("-");
                assert("-"@ == seq!['-']);
            }
            if i > 0 {
                out.append("-");
            }
            out.append(d.as_str());
            i = i + 1;
        }
        assert(self.data@.subrange(0, self.data@.len() as int) == self.data@);
        out
    }
}

} // verus!

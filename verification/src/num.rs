//! Marker traits for numbers.

use vstd::prelude::*;

verus! {

/// A number.
pub trait Num {}

/// An integer.
pub trait Int: Num {}

/// An unsigned integer.
pub trait UInt: Int {}

/// A signed integer.
pub trait SInt: Int {}

impl Num for usize {}

impl Int for usize {}

impl UInt for usize {}

impl Num for u32 {}

impl Int for u32 {}

impl UInt for u32 {}

} // verus!

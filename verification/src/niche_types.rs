//! Integers that are never negative.

use vstd::prelude::*;

verus! {

/// An `i8` that is not negative.
#[derive(Debug, Clone, Copy, PartialEq, Eq, PartialOrd, Ord, Hash)]
pub struct NonNegativeI8(i8);

impl NonNegativeI8 {
    #[verifier::type_invariant]
    spec fn is_valid(self) -> bool {
        0 <= self.0
    }

    /// The number.
    pub closed spec fn value(self) -> int {
        self.0 as int
    }

    /// The least value.
    pub fn min() -> (r: NonNegativeI8)
        ensures
            r.value() == 0,
    {
        NonNegativeI8(0)
    }

    /// The greatest value.
    pub fn max() -> (r: NonNegativeI8)
        ensures
            r.value() == 0x7f,
    {
        NonNegativeI8(0x7f)
    }

    /// Takes a number; returns nothing where it is negative.
    pub fn new(val: i8) -> (r: Option<NonNegativeI8>)
        ensures
            match r {
                Some(n) => 0 <= val && n.value() == val,
                None => val < 0,
            },
    {
        if val >= 0 {
            Some(NonNegativeI8(val))
        } else {
            None
        }
    }

    /// Takes a number that is not negative.
    pub fn new_unchecked(val: i8) -> (r: NonNegativeI8)
        requires
            0 <= val,
        ensures
            r.value() == val,
    {
        NonNegativeI8(val)
    }

    /// Returns the number.
    pub fn as_inner(self) -> (r: i8)
        ensures
            r == self.value(),
            0 <= r,
    {
        proof {
            use_type_invariant(self);
        }
        self.0
    }
}

/// An `i16` that is not negative.
#[derive(Debug, Clone, Copy, PartialEq, Eq, PartialOrd, Ord, Hash)]
pub struct NonNegativeI16(i16);

impl NonNegativeI16 {
    #[verifier::type_invariant]
    spec fn is_valid(self) -> bool {
        0 <= self.0
    }

    /// The number.
    pub closed spec fn value(self) -> int {
        self.0 as int
    }

    /// The least value.
    pub fn min() -> (r: NonNegativeI16)
        ensures
            r.value() == 0,
    {
        NonNegativeI16(0)
    }

    /// The greatest value.
    pub fn max() -> (r: NonNegativeI16)
        ensures
            r.value() == 0x7fff,
    {
        NonNegativeI16(0x7fff)
    }

    /// Takes a number; returns nothing where it is negative.
    pub fn new(val: i16) -> (r: Option<NonNegativeI16>)
        ensures
            match r {
                Some(n) => 0 <= val && n.value() == val,
                None => val < 0,
            },
    {
        if val >= 0 {
            Some(NonNegativeI16(val))
        } else {
            None
        }
    }

    /// Takes a number that is not negative.
    pub fn new_unchecked(val: i16) -> (r: NonNegativeI16)
        requires
            0 <= val,
        ensures
            r.value() == val,
    {
        NonNegativeI16(val)
    }

    /// Returns the number.
    pub fn as_inner(self) -> (r: i16)
        ensures
            r == self.value(),
            0 <= r,
    {
        proof {
            use_type_invariant(self);
        }
        self.0
    }
}

} // verus!

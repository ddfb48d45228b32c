use vstd::prelude::*;

use crate::error::OrthoError;

verus! {

/// An element of the two-element field GF(2).
#[derive(Clone, Copy, Debug, PartialEq, Eq, Hash, PartialOrd, Ord, Structural)]
pub enum GF2 {
    Zero,
    One,
}

/// Field addition: exclusive or.
pub open spec fn gf_add(a: GF2, b: GF2) -> GF2 {
    if a == b { GF2::Zero } else { GF2::One }
}

/// Field multiplication: logical and.
pub open spec fn gf_mul(a: GF2, b: GF2) -> GF2 {
    if a == GF2::One && b == GF2::One { GF2::One } else { GF2::Zero }
}

/// The element that an integer is congruent to modulo 2.
pub open spec fn gf_of_int(v: int) -> GF2 {
    if v % 2 == 0 { GF2::Zero } else { GF2::One }
}

impl GF2 {
    pub fn zero() -> (r: GF2)
        ensures
            r == GF2::Zero,
    {
        GF2::Zero
    }

    pub fn one() -> (r: GF2)
        ensures
            r == GF2::One,
    {
        GF2::One
    }

    pub fn is_zero(&self) -> (r: bool)
        ensures
            r == (*self == GF2::Zero),
    {
        match self {
            GF2::Zero => true,
            GF2::One => false,
        }
    }

    pub fn is_one(&self) -> (r: bool)
        ensures
            r == (*self == GF2::One),
    {
        !self.is_zero()
    }

    /// Exclusive or.
    pub fn add(self, rhs: GF2) -> (r: GF2)
        ensures
            r == gf_add(self, rhs),
    {
        if self.is_zero() == rhs.is_zero() {
            GF2::Zero
        } else {
            GF2::One
        }
    }

    /// Subtraction, which in characteristic two is addition.
    pub fn sub(self, rhs: GF2) -> (r: GF2)
        ensures
            r == gf_add(self, rhs),
    {
        self.add(rhs)
    }

    /// Logical and.
    pub fn mul(self, rhs: GF2) -> (r: GF2)
        ensures
            r == gf_mul(self, rhs),
    {
        if self.is_one() && rhs.is_one() {
            GF2::One
        } else {
            GF2::Zero
        }
    }

    /// Division: the only nonzero divisor is one, so the numerator comes back.
    pub fn div(self, rhs: GF2) -> (r: Result<GF2, OrthoError>)
        ensures
            rhs == GF2::Zero ==> r == Err::<GF2, OrthoError>(OrthoError::DivisionByZero),
            rhs == GF2::One ==> r == Ok::<GF2, OrthoError>(self),
    {
        if rhs.is_zero() {
            Err(OrthoError::DivisionByZero)
        } else {
            Ok(self)
        }
    }

    /// The additive inverse, which is the element itself.
    pub fn neg(self) -> (r: GF2)
        ensures
            r == self,
    {
        self
    }

    /// The residue of an integer modulo 2; negative integers are normalised
    /// into {0, 1}.
    pub fn from_integer(v: i64) -> (r: GF2)
        ensures
            r == gf_of_int(v as int),
    {
        if v % 2 == 0 {
            GF2::Zero
        } else {
            GF2::One
        }
    }

    /// The element as the integer 0 or 1.
    pub fn value(self) -> (r: u8)
        ensures
            r == (if self == GF2::One { 1u8 } else { 0u8 }),
    {
        if self.is_one() { 1 } else { 0 }
    }
}

} // verus!

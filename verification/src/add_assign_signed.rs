//! In-place addition of a signed amount to an unsigned count.
//!
//! This isolates the one place where signed and unsigned arithmetic meet:
//! a topple subtracts a fixed amount from a cell while injections and
//! neighbor distributions add to it. The contract rules out wrap-around in
//! either direction, so a count can never silently go negative or overflow.

use vstd::prelude::*;

verus! {

/// In-place addition of a signed right-hand side to `self`.
pub trait AddAssignSigned<Rhs>: Sized {
    /// True when adding `rhs` keeps `self` inside its representable range.
    spec fn add_signed_in_range(&self, rhs: Rhs) -> bool;

    /// The mathematical result of adding `rhs` to `self`.
    spec fn add_signed(&self, rhs: Rhs) -> Self;

    /// Adds `rhs` to `self`, which must stay in range: no wrap-around.
    fn add_assign_signed(&mut self, rhs: Rhs)
        requires
            old(self).add_signed_in_range(rhs),
        ensures
            *final(self) == old(self).add_signed(rhs),
    ;
}

impl AddAssignSigned<i64> for u32 {
    open spec fn add_signed_in_range(&self, rhs: i64) -> bool {
        0 <= *self + rhs <= u32::MAX
    }

    open spec fn add_signed(&self, rhs: i64) -> u32 {
        (*self + rhs) as u32
    }

    fn add_assign_signed(&mut self, rhs: i64) {
        if rhs < 0 {
            *self = *self - ((-rhs) as u32);
        } else {
            *self = *self + (rhs as u32);
        }
    }
}

} // verus!

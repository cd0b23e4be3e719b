//! The packed-integer storage kind of a table.
//!
//! A `ValueDomain` fixes the width of the packed values a table stores and
//! thereby bounds how many flags the table may hold.

use vstd::prelude::*;

verus! {

/// The width of the packed-integer storage backing a table's values.
#[derive(Copy, Clone, Debug, PartialEq, Eq, Structural)]
pub enum ValueDomain {
    W8,
    W16,
    W32,
    W64,
}

impl ValueDomain {
    /// The number of bits of the domain, one of 8, 16, 32 and 64.
    pub open spec fn spec_width(self) -> u64 {
        match self {
            ValueDomain::W8 => 8,
            ValueDomain::W16 => 16,
            ValueDomain::W32 => 32,
            ValueDomain::W64 => 64,
        }
    }

    /// How many bits the domain holds; no table over it may have more flags.
    pub fn width(&self) -> (w: u64)
        ensures
            w == self.spec_width(),
            8 <= w <= 64,
    {
        match self {
            ValueDomain::W8 => 8,
            ValueDomain::W16 => 16,
            ValueDomain::W32 => 32,
            ValueDomain::W64 => 64,
        }
    }
}

} // verus!

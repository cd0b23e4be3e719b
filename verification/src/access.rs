//! Accessors: predicates over a packed table value.
//!
//! Everything that can be asked of a table cell goes through one `check`
//! contract: a single flag's membership (`Flag`), a conjunction (`All`), a
//! disjunction (`Any`), "no flags at all" (`NoFlagsSet`) and "never true"
//! (`EmptyFlag`, the empty-cell placeholder). `Any` and `All` hold a single
//! mask built incrementally at runtime; they are plain values, so mutation
//! is local to the caller's copy.

use crate::bits::{bit, mask_of};
use crate::space::Flag;
use vstd::prelude::*;

verus! {

/// A predicate over a packed table value. `spec_check` is the meaning of the
/// predicate; `check` computes it.
pub trait Access: Sized {
    /// What the accessor needs of itself before it can be evaluated.
    spec fn wf(self) -> bool;

    /// The meaning of the accessor on a packed value.
    spec fn spec_check(self, value: u64) -> bool;

    /// Evaluate the accessor on a packed value.
    fn check(&self, value: u64) -> (r: bool)
        requires
            self.wf(),
        ensures
            r == self.spec_check(value),
    ;
}

/// A flag is itself an accessor: it holds of a value exactly when its own
/// bit is set.
impl Access for Flag {
    open spec fn wf(self) -> bool {
        self.spec_position() < 64
    }

    open spec fn spec_check(self, value: u64) -> bool {
        bit(value, self.spec_position())
    }

    fn check(&self, value: u64) -> (r: bool) {
        value & (1u64 << self.position()) != 0
    }
}

/// The placeholder accessor of an empty table cell: it holds of no value.
#[derive(Copy, Clone, Debug, Default)]
pub struct EmptyFlag;

impl Access for EmptyFlag {
    open spec fn wf(self) -> bool {
        true
    }

    open spec fn spec_check(self, value: u64) -> bool {
        false
    }

    fn check(&self, value: u64) -> (r: bool) {
        false
    }
}

/// The accessor that holds exactly of the zero value: no flag set at all.
#[derive(Copy, Clone, Debug, Default)]
pub struct NoFlagsSet;

impl Access for NoFlagsSet {
    open spec fn wf(self) -> bool {
        true
    }

    open spec fn spec_check(self, value: u64) -> bool {
        value == 0
    }

    fn check(&self, value: u64) -> (r: bool) {
        value == 0
    }
}

/// A disjunction over a set of flags, held as the union of their masks: the
/// accessor holds when at least one of the flags is set.
#[derive(Copy, Clone, Debug, PartialEq, Eq, Hash, Structural)]
pub struct Any {
    mask: u64,
}

impl Any {
    /// The union of the masks of the flags the accessor asks for.
    pub closed spec fn spec_mask(self) -> u64 {
        self.mask
    }

    /// The combined mask of the accessor.
    pub fn mask(self) -> (m: u64)
        ensures
            m == self.spec_mask(),
    {
        self.mask
    }

    /// The disjunction over a single flag.
    pub fn new(flag: Flag) -> (r: Any)
        requires
            flag.spec_position() < 64,
        ensures
            r.spec_mask() == mask_of(flag.spec_position()),
    {
        Any { mask: 1u64 << flag.position() }
    }

    /// The disjunction over no flags; it holds of no value.
    pub fn empty() -> (r: Any)
        ensures
            r.spec_mask() == 0,
    {
        Any { mask: 0 }
    }

    /// The disjunction over the flags of a raw mask.
    pub fn from_mask(mask: u64) -> (r: Any)
        ensures
            r.spec_mask() == mask,
    {
        Any { mask }
    }

    /// The union of two disjunctions.
    pub fn or(self, other: Any) -> (r: Any)
        ensures
            r.spec_mask() == self.spec_mask() | other.spec_mask(),
    {
        Any { mask: self.mask | other.mask }
    }

    /// Two disjunction accessors are equal exactly when they hold the same
    /// mask; an accessor is nothing but its mask.
    pub proof fn lemma_eq_is_mask_eq(a: Any, b: Any)
        ensures
            (a == b) <==> (a.spec_mask() == b.spec_mask()),
    {
    }

    /// Or another disjunction's flags into this one.
    pub fn or_assign(&mut self, other: Any)
        ensures
            final(self).spec_mask() == old(self).spec_mask() | other.spec_mask(),
    {
        self.mask = self.mask | other.mask;
    }
}

impl Access for Any {
    open spec fn wf(self) -> bool {
        true
    }

    open spec fn spec_check(self, value: u64) -> bool {
        value & self.spec_mask() != 0
    }

    fn check(&self, value: u64) -> (r: bool) {
        value & self.mask != 0
    }
}

/// A conjunction over a set of flags, held as the union of their masks: the
/// accessor holds when every one of the flags is set.
#[derive(Copy, Clone, Debug, PartialEq, Eq, Hash, Structural)]
pub struct All {
    mask: u64,
}

impl All {
    /// The union of the masks of the flags the accessor asks for.
    pub closed spec fn spec_mask(self) -> u64 {
        self.mask
    }

    /// The combined mask of the accessor.
    pub fn mask(self) -> (m: u64)
        ensures
            m == self.spec_mask(),
    {
        self.mask
    }

    /// The conjunction over a single flag.
    pub fn new(flag: Flag) -> (r: All)
        requires
            flag.spec_position() < 64,
        ensures
            r.spec_mask() == mask_of(flag.spec_position()),
    {
        All { mask: 1u64 << flag.position() }
    }

    /// The conjunction over no flags; it holds of every value.
    pub fn empty() -> (r: All)
        ensures
            r.spec_mask() == 0,
    {
        All { mask: 0 }
    }

    /// The conjunction over the flags of a raw mask.
    pub fn from_mask(mask: u64) -> (r: All)
        ensures
            r.spec_mask() == mask,
    {
        All { mask }
    }

    /// The conjunction asking for the flags of both sides.
    pub fn and(self, other: All) -> (r: All)
        ensures
            r.spec_mask() == self.spec_mask() | other.spec_mask(),
    {
        All { mask: self.mask | other.mask }
    }

    /// Two conjunction accessors are equal exactly when they hold the same
    /// mask; an accessor is nothing but its mask.
    pub proof fn lemma_eq_is_mask_eq(a: All, b: All)
        ensures
            (a == b) <==> (a.spec_mask() == b.spec_mask()),
    {
    }

    /// Require another conjunction's flags in this one as well.
    pub fn and_assign(&mut self, other: All)
        ensures
            final(self).spec_mask() == old(self).spec_mask() | other.spec_mask(),
    {
        self.mask = self.mask | other.mask;
    }
}

impl Access for All {
    open spec fn wf(self) -> bool {
        true
    }

    open spec fn spec_check(self, value: u64) -> bool {
        value & self.spec_mask() == self.spec_mask()
    }

    fn check(&self, value: u64) -> (r: bool) {
        value & self.mask == self.mask
    }
}

} // verus!

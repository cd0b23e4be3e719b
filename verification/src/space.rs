//! Flag spaces: the ordered, disjoint sets of named flags of one table.
//!
//! A `FlagSpace` pairs a `ValueDomain` with an ordered list of flag names and
//! assigns the i-th declared flag the exclusive bit position `i`. A `Flag` is
//! a handle on one such position; its bit mask is `1 << position`.

use crate::bits::mask_of;
use crate::domain::ValueDomain;
use vstd::prelude::*;

verus! {

/// An error raised while a flag space or a table is built. Construction never
/// silently succeeds with wrong data: each failed validation names the
/// offending flag, cell or source.
#[derive(Copy, Clone, Debug, PartialEq, Eq, Structural)]
pub enum BuildError {
    /// A flag space declares more flags than its value domain has bits.
    TooManyFlags { count: usize, width: u64 },
    /// Two flags of one space carry the same name; the payload gives the two
    /// declaration indices.
    DuplicateFlagName { first: usize, second: usize },
    /// A table declares a different number of cells than its length.
    CellCountMismatch { expected: usize, found: usize },
    /// A cell of a table refers to a flag position the space does not have;
    /// the payload gives the cell index and the entry within its flag list.
    UnknownFlag { cell: usize, entry: usize },
    /// A merge source table does not have the declared index length.
    LengthMismatch { source: usize },
    /// A merge selects a flag name its source table does not define; the
    /// payload gives the source index and the entry in its selection list.
    NoSuchFlag { source: usize, flag: usize },
    /// The summed flag counts of the merge sources exceed the target width.
    MergeOverflow { width: u64 },
}

/// A handle on one flag of a flag space: the bit position the space assigned
/// to it. Its mask within a packed value is `1 << position`.
#[derive(Copy, Clone, Debug, PartialEq, Eq, Hash, Structural)]
pub struct Flag {
    position: u64,
}

impl Flag {
    /// The bit position of the flag within its space.
    pub closed spec fn spec_position(self) -> u64 {
        self.position
    }

    /// The bit position of the flag within its space.
    pub fn position(&self) -> (p: u64)
        ensures
            p == self.spec_position(),
    {
        self.position
    }

    /// Two flag handles are equal exactly when they hold the same position.
    pub proof fn lemma_eq_is_position_eq(f: Flag, g: Flag)
        ensures
            (f == g) <==> (f.spec_position() == g.spec_position()),
    {
    }

    /// The bit mask of the flag: `1 << position`.
    pub fn mask(&self) -> (m: u64)
        requires
            self.spec_position() < 64,
        ensures
            m == mask_of(self.spec_position()),
    {
        1u64 << self.position
    }
}

/// An ordered set of uniquely named flags over one value domain. The i-th
/// declared flag holds bit position `i`; a well-formed space never has more
/// flags than the domain has bits.
pub struct FlagSpace {
    domain: ValueDomain,
    names: Vec<String>,
}

impl FlagSpace {
    /// The value domain the flags are packed into.
    pub closed spec fn spec_domain(self) -> ValueDomain {
        self.domain
    }

    /// How many flags the space declares.
    pub closed spec fn spec_count(self) -> nat {
        self.names@.len()
    }

    /// The name of the flag at position `i`.
    pub closed spec fn spec_name(self, i: int) -> Seq<char> {
        self.names@[i]@
    }

    /// Well-formedness: the flags fit the domain's width and carry pairwise
    /// distinct names. Every space this module hands out satisfies it.
    pub open spec fn wf(self) -> bool {
        &&& self.spec_count() <= self.spec_domain().spec_width()
        &&& forall|i: int, j: int|
            0 <= i < j < self.spec_count() ==> self.spec_name(i) != self.spec_name(j)
    }

    /// Whether some flag of the space carries this name.
    pub open spec fn has_flag(self, name: Seq<char>) -> bool {
        exists|p: int| 0 <= p < self.spec_count() && self.spec_name(p) == name
    }

    /// The position of the flag carrying this name; in a well-formed space
    /// the position is unique.
    pub open spec fn position_of(self, name: Seq<char>) -> int {
        choose|p: int| 0 <= p < self.spec_count() && self.spec_name(p) == name
    }

    /// Declare a flag space: assign each name a distinct bit position,
    /// 0-based in declaration order. Fails if the names outnumber the
    /// domain's bits or if a name is declared twice.
    pub fn new(domain: ValueDomain, names: Vec<String>) -> (r: Result<FlagSpace, BuildError>)
        ensures
            r is Ok <==> {
                &&& names@.len() <= domain.spec_width()
                &&& forall|i: int, j: int|
                    0 <= i < j < names@.len() ==> names@[i]@ != names@[j]@
            },
            r matches Ok(s) ==> {
                &&& s.wf()
                &&& s.spec_domain() == domain
                &&& s.spec_count() == names@.len()
                &&& forall|i: int| 0 <= i < names@.len() ==> s.spec_name(i) == names@[i]@
            },
            names@.len() > domain.spec_width() ==> r == Err::<FlagSpace, BuildError>(
                BuildError::TooManyFlags { count: names@.len() as usize, width: domain.spec_width() },
            ),
            r is Err && names@.len() <= domain.spec_width() ==> (r matches Err(
                BuildError::DuplicateFlagName { first, second },
            ) && 0 <= first < second < names@.len() && names@[first as int]@ == names@[second as int]@),
    {
        let width = domain.width();
        if names.len() as u64 > width {
            return Err(BuildError::TooManyFlags { count: names.len(), width });
        }
        let mut j: usize = 0;
        while j < names.len()
            invariant
                j <= names@.len(),
                names@.len() <= domain.spec_width(),
                forall|a: int, b: int| 0 <= a < b < j ==> names@[a]@ != names@[b]@,
            decreases names@.len() - j,
        {
            let mut i: usize = 0;
            while i < j
                invariant
                    i <= j < names@.len(),
                    names@.len() <= domain.spec_width(),
                    forall|a: int| 0 <= a < i ==> names@[a]@ != names@[j as int]@,
                decreases j - i,
            {
                if names[i] == names[j] {
                    return Err(BuildError::DuplicateFlagName { first: i, second: j });
                }
                i += 1;
            }
            j += 1;
        }
        Ok(FlagSpace { domain, names })
    }

    /// How many flags the space declares.
    pub fn flag_count(&self) -> (c: usize)
        ensures
            c == self.spec_count(),
    {
        self.names.len()
    }

    /// The value domain the flags are packed into.
    pub fn domain(&self) -> (d: ValueDomain)
        ensures
            d == self.spec_domain(),
    {
        self.domain
    }

    /// Look a flag up by name: the handle on the position the space assigned
    /// to that name, or `None` if no flag carries it.
    pub fn flag(&self, name: &String) -> (r: Option<Flag>)
        requires
            self.wf(),
        ensures
            r is Some <==> self.has_flag(name@),
            r matches Some(f) ==> {
                &&& f.spec_position() < self.spec_count()
                &&& self.spec_name(f.spec_position() as int) == name@
                &&& f.spec_position() as int == self.position_of(name@)
            },
    {
        let mut i: usize = 0;
        while i < self.names.len()
            invariant
                self.wf(),
                i <= self.spec_count(),
                forall|a: int| 0 <= a < i ==> self.spec_name(a) != name@,
            decreases self.spec_count() - i,
        {
            if self.names[i] == *name {
                proof {
                    assert(self.spec_name(i as int) == name@);
                    assert(self.has_flag(name@));
                    let p = self.position_of(name@);
                    assert(0 <= p < self.spec_count() && self.spec_name(p) == name@);
                    if p < i as int {
                        assert(self.spec_name(p) != self.spec_name(i as int));
                        assert(false);
                    }
                    if p > i as int {
                        assert(self.spec_name(i as int) != self.spec_name(p));
                        assert(false);
                    }
                }
                return Some(Flag { position: i as u64 });
            }
            i += 1;
        }
        None
    }
}

} // verus!

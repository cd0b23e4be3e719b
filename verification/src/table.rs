//! Tables: immutable fixed-length arrays of packed flag values.
//!
//! Each cell of a table holds the bitwise or of the masks of the flags
//! present at that index. A table is built once from its flag space and the
//! per-index flag lists, and only read afterwards.

use crate::access::Access;
use crate::bits::{bit, lemma_mask_bit, lemma_or_bit, mask_of};
use crate::space::{BuildError, Flag, FlagSpace};
use vstd::prelude::*;

verus! {

/// Whether some entry of a cell's flag list names bit position `q`.
pub open spec fn row_has(row: Seq<usize>, q: u64) -> bool {
    exists|k: int| 0 <= k < row.len() && row[k] as u64 == q
}

proof fn lemma_row_has_step(row: Seq<usize>, k: int, q: u64)
    requires
        0 <= k < row.len(),
    ensures
        row_has(row.take(k + 1), q) == (row_has(row.take(k), q) || row[k] as u64 == q),
{
    if row_has(row.take(k), q) {
        let k0 = choose|k0: int| 0 <= k0 < row.take(k).len() && row.take(k)[k0] as u64 == q;
        assert(row.take(k + 1)[k0] as u64 == q);
    }
    if row[k] as u64 == q {
        assert(row.take(k + 1)[k] as u64 == q);
    }
    if row_has(row.take(k + 1), q) {
        let k0 = choose|k0: int|
            0 <= k0 < row.take(k + 1).len() && (#[trigger] row.take(k + 1)[k0]) as u64 == q;
        if k0 < k {
            assert(row.take(k)[k0] as u64 == q);
        } else {
            assert(row[k] as u64 == q);
        }
    }
}

/// An immutable fixed-length array over a value domain; each slot holds the
/// or of the bit masks of the flags present at that index.
pub struct Table {
    space: FlagSpace,
    cells: Vec<u64>,
}

impl Table {
    /// The flag space whose flags the cells pack.
    pub closed spec fn spec_space(self) -> FlagSpace {
        self.space
    }

    /// The packed cell values, one per index.
    pub closed spec fn spec_cells(self) -> Seq<u64> {
        self.cells@
    }

    /// The index length of the table.
    pub open spec fn spec_len(self) -> nat {
        self.spec_cells().len()
    }

    /// Well-formedness: the space is well formed and every set bit of every
    /// cell belongs to one of the space's flags. Every table this module
    /// hands out satisfies it.
    pub open spec fn wf(self) -> bool {
        &&& self.spec_space().wf()
        &&& forall|i: int, q: u64|
            0 <= i < self.spec_len() && #[trigger] bit(self.spec_cells()[i], q) ==> q
                < self.spec_space().spec_count()
    }

    /// Build a table: one cell per index, each the or of the masks of the
    /// flags listed for it (an empty list gives a zero cell). Fails if the
    /// number of cell lists differs from the declared length or if a list
    /// names a flag position the space does not assign.
    pub fn new(space: FlagSpace, length: usize, rows: Vec<Vec<usize>>) -> (r: Result<
        Table,
        BuildError,
    >)
        requires
            space.wf(),
        ensures
            r is Ok <==> {
                &&& rows@.len() == length
                &&& forall|c: int, k: int|
                    0 <= c < rows@.len() && 0 <= k < rows@[c]@.len() ==> rows@[c]@[k]
                        < space.spec_count()
            },
            r matches Ok(t) ==> {
                &&& t.wf()
                &&& t.spec_space() == space
                &&& t.spec_len() == length
                &&& forall|c: int, q: u64|
                    0 <= c < length ==> #[trigger] bit(t.spec_cells()[c], q) == row_has(
                        rows@[c]@,
                        q,
                    )
            },
            rows@.len() != length ==> r == Err::<Table, BuildError>(
                BuildError::CellCountMismatch { expected: length, found: rows@.len() as usize },
            ),
            r is Err && rows@.len() == length ==> (r matches Err(
                BuildError::UnknownFlag { cell, entry },
            ) && 0 <= cell < rows@.len() && 0 <= entry < rows@[cell as int]@.len()
                && rows@[cell as int]@[entry as int] >= space.spec_count()),
    {
        if rows.len() != length {
            return Err(BuildError::CellCountMismatch { expected: length, found: rows.len() });
        }
        let count = space.flag_count();
        let mut cells: Vec<u64> = Vec::new();
        let mut idx: usize = 0;
        while idx < rows.len()
            invariant
                space.wf(),
                count == space.spec_count(),
                rows@.len() == length,
                idx <= length,
                cells@.len() == idx,
                forall|c: int, q: u64|
                    0 <= c < idx ==> #[trigger] bit(cells@[c], q) == row_has(rows@[c]@, q),
                forall|c: int, k: int|
                    0 <= c < idx && 0 <= k < rows@[c]@.len() ==> rows@[c]@[k] < count,
            decreases length - idx,
        {
            let row = &rows[idx];
            let mut v: u64 = 0;
            let mut k: usize = 0;
            proof {
                assert forall|q: u64| !bit(0u64, q) by {
                    crate::bits::lemma_zero_bit(q);
                }
                assert(row@.take(0) =~= Seq::<usize>::empty());
            }
            while k < row.len()
                invariant
                    space.wf(),
                    count == space.spec_count(),
                    rows@.len() == length,
                    0 <= idx < length,
                    row@ == rows@[idx as int]@,
                    k <= row@.len(),
                    forall|q: u64| #[trigger] bit(v, q) == row_has(row@.take(k as int), q),
                    forall|k0: int| 0 <= k0 < k ==> row@[k0] < count,
                decreases row@.len() - k,
            {
                let p = row[k];
                if p >= count {
                    return Err(BuildError::UnknownFlag { cell: idx, entry: k });
                }
                let ghost prev = v;
                v = v | (1u64 << (p as u64));
                proof {
                    assert forall|q: u64| #[trigger] bit(v, q) == row_has(
                        row@.take(k as int + 1),
                        q,
                    ) by {
                        lemma_or_bit(prev, mask_of(p as u64), q);
                        if q < 64 {
                            lemma_mask_bit(p as u64, q);
                        }
                        lemma_row_has_step(row@, k as int, q);
                    }
                }
                k += 1;
            }
            proof {
                assert(row@.take(row@.len() as int) =~= row@);
            }
            cells.push(v);
            idx += 1;
        }
        proof {
            assert forall|i: int, q: u64|
                0 <= i < cells@.len() && #[trigger] bit(cells@[i], q) implies q
                < space.spec_count() by {
                let k0 = choose|k0: int| 0 <= k0 < rows@[i]@.len() && rows@[i]@[k0] as u64 == q;
                assert(rows@[i]@[k0] < space.spec_count());
            }
        }
        Ok(Table { space, cells })
    }

    /// Assemble a table from an already validated space and cell vector;
    /// the merge builder proves well-formedness of what it assembles.
    pub(crate) fn from_parts(space: FlagSpace, cells: Vec<u64>) -> (t: Table)
        ensures
            t.spec_space() == space,
            t.spec_cells() == cells@,
    {
        Table { space, cells }
    }

    /// The index length of the table.
    pub fn len(&self) -> (n: usize)
        ensures
            n == self.spec_len(),
    {
        self.cells.len()
    }

    /// The flag space whose flags the cells pack.
    pub fn space(&self) -> (s: &FlagSpace)
        ensures
            *s == self.spec_space(),
    {
        &self.space
    }

    /// Read the packed value at an index. The caller guarantees the index is
    /// in range; the read itself is a plain array access.
    pub fn lookup(&self, idx: usize) -> (v: u64)
        requires
            idx < self.spec_len(),
        ensures
            v == self.spec_cells()[idx as int],
    {
        self.cells[idx]
    }

    /// Evaluate an accessor on the packed value at an index.
    pub fn check_at<A: Access>(&self, idx: usize, accessor: A) -> (r: bool)
        requires
            idx < self.spec_len(),
            accessor.wf(),
        ensures
            r == accessor.spec_check(self.spec_cells()[idx as int]),
    {
        accessor.check(self.lookup(idx))
    }

    /// The bounds-checked variant of `check_at`: an index outside the table,
    /// on either end of the valid range, yields `false` instead of failing.
    pub fn unbound_check_at<A: Access>(&self, idx: usize, accessor: A) -> (r: bool)
        requires
            accessor.wf(),
        ensures
            r == (idx < self.spec_len() && accessor.spec_check(self.spec_cells()[idx as int])),
    {
        if idx >= self.len() {
            false
        } else {
            self.check_at(idx, accessor)
        }
    }

    /// The bit mask of one of the table's own flags: `1 << position`. A
    /// convenience accessor, not a table lookup.
    pub fn mask(&self, flag: Flag) -> (m: u64)
        requires
            self.wf(),
            flag.spec_position() < self.spec_space().spec_count(),
        ensures
            m == mask_of(flag.spec_position()),
    {
        proof {
            assert(self.spec_space().spec_domain().spec_width() <= 64);
        }
        flag.mask()
    }

    /// Whether one of the table's own flags is present at an index.
    pub fn check_flag_at(&self, idx: usize, flag: Flag) -> (r: bool)
        requires
            self.wf(),
            idx < self.spec_len(),
            flag.spec_position() < self.spec_space().spec_count(),
        ensures
            r == bit(self.spec_cells()[idx as int], flag.spec_position()),
    {
        proof {
            assert(self.spec_space().spec_domain().spec_width() <= 64);
        }
        self.check_at(idx, flag)
    }

    /// Look a flag of the table's space up by name.
    pub fn flag(&self, name: &String) -> (r: Option<Flag>)
        requires
            self.wf(),
        ensures
            r is Some <==> self.spec_space().has_flag(name@),
            r matches Some(f) ==> {
                &&& f.spec_position() < self.spec_space().spec_count()
                &&& self.spec_space().spec_name(f.spec_position() as int) == name@
                &&& f.spec_position() as int == self.spec_space().position_of(name@)
            },
    {
        self.space.flag(name)
    }
}

} // verus!

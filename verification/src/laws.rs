//! The laws of the table model, stated and proved once for all inputs:
//! disjointness of flag masks, agreement of flag checks with raw lookups,
//! the meaning of conjunction and disjunction accessors, preservation of
//! membership across a merge, and the shape of an empty cell.

use crate::access::{Access, All, Any, NoFlagsSet};
use crate::bits::{bit, lemma_nonzero_has_bit, mask_of};
use crate::domain::ValueDomain;
use crate::merge::{
    lemma_position_bound, lemma_sel_rank_bound, merged_from, sel_rank, source_position, sources_wf,
    spec_offset, valid_sel, MergeSource,
};
use crate::space::{Flag, FlagSpace};
use crate::table::Table;
use vstd::prelude::*;

verus! {

proof fn lemma_distinct_single_bits(p: u64, q: u64)
    by (bit_vector)
    requires
        p < 64,
        q < 64,
        p != q,
    ensures
        (1u64 << p) & (1u64 << q) == 0,
{
}

/// Mask uniqueness: two distinct flags of one flag space never share a bit,
/// so the bitwise and of their masks is zero.
pub proof fn lemma_mask_uniqueness(s: FlagSpace, f: Flag, g: Flag)
    requires
        s.wf(),
        f.spec_position() < s.spec_count(),
        g.spec_position() < s.spec_count(),
        f != g,
    ensures
        mask_of(f.spec_position()) & mask_of(g.spec_position()) == 0,
{
    assert(s.spec_domain().spec_width() <= 64);
    Flag::lemma_eq_is_position_eq(f, g);
    lemma_distinct_single_bits(f.spec_position(), g.spec_position());
}

/// Lookup/check consistency: checking a flag at an index holds exactly when
/// the raw lookup value, masked with the flag's mask, is nonzero.
pub proof fn lemma_lookup_check_consistency(t: Table, idx: int, f: Flag)
    requires
        t.wf(),
        0 <= idx < t.spec_len(),
        f.spec_position() < t.spec_space().spec_count(),
    ensures
        f.spec_check(t.spec_cells()[idx]) == (t.spec_cells()[idx] & mask_of(f.spec_position())
            != 0),
{
    assert(t.spec_space().spec_domain().spec_width() <= 64);
}

proof fn lemma_two_bit_all(v: u64, p: u64, q: u64)
    by (bit_vector)
    requires
        p < 64,
        q < 64,
    ensures
        (v & ((1u64 << p) | (1u64 << q)) == ((1u64 << p) | (1u64 << q))) == (bit(v, p) && bit(
            v,
            q,
        )),
{
}

proof fn lemma_two_bit_any(v: u64, p: u64, q: u64)
    by (bit_vector)
    requires
        p < 64,
        q < 64,
    ensures
        (v & ((1u64 << p) | (1u64 << q)) != 0) == (bit(v, p) || bit(v, q)),
{
}

/// Conjunction semantics: an `All` accessor over the flags `f` and `g`
/// holds of a value exactly when both flags' bits are set in it.
pub proof fn lemma_all_semantics(a: All, f: Flag, g: Flag, v: u64)
    requires
        f.spec_position() < 64,
        g.spec_position() < 64,
        a.spec_mask() == mask_of(f.spec_position()) | mask_of(g.spec_position()),
    ensures
        a.spec_check(v) == (bit(v, f.spec_position()) && bit(v, g.spec_position())),
{
    lemma_two_bit_all(v, f.spec_position(), g.spec_position());
}

/// Disjunction semantics: an `Any` accessor over the flags `f` and `g`
/// holds of a value exactly when at least one of the flags' bits is set.
pub proof fn lemma_any_semantics(a: Any, f: Flag, g: Flag, v: u64)
    requires
        f.spec_position() < 64,
        g.spec_position() < 64,
        a.spec_mask() == mask_of(f.spec_position()) | mask_of(g.spec_position()),
    ensures
        a.spec_check(v) == (bit(v, f.spec_position()) || bit(v, g.spec_position())),
{
    lemma_two_bit_any(v, f.spec_position(), g.spec_position());
}

/// Merge membership preservation: for a merged table built from an ordered
/// list of sources, a selected flag — looked up by name in the merged table
/// — is present at an index exactly when its source table, asked for the
/// same name, has it at that index.
pub proof fn lemma_merge_preserves_membership(
    m: Table,
    domain: ValueDomain,
    length: nat,
    sources: Seq<MergeSource>,
    i: int,
    r: int,
    idx: int,
)
    requires
        merged_from(m, domain, length, sources),
        sources_wf(sources),
        valid_sel(sources, i, r),
        0 <= idx < length,
    ensures
        m.spec_space().has_flag(sources[i].flags@[r]@),
        bit(
            m.spec_cells()[idx],
            m.spec_space().position_of(sources[i].flags@[r]@) as u64,
        ) == bit(
            sources[i].table.spec_cells()[idx],
            sources[i].table.spec_space().position_of(sources[i].flags@[r]@) as u64,
        ),
{
    let name = sources[i].flags@[r]@;
    lemma_sel_rank_bound(sources[i], r);
    lemma_position_bound(sources, i, sel_rank(sources[i], r));
    let q = spec_offset(sources, i) + sel_rank(sources[i], r);
    assert(m.spec_space().spec_name(q) == name);
    assert(m.spec_space().has_flag(name));
    let pm = m.spec_space().position_of(name);
    assert(0 <= pm < m.spec_space().spec_count() && m.spec_space().spec_name(pm) == name);
    if pm < q {
        assert(m.spec_space().spec_name(pm) != m.spec_space().spec_name(q));
        assert(false);
    }
    if pm > q {
        assert(m.spec_space().spec_name(q) != m.spec_space().spec_name(pm));
        assert(false);
    }
    assert(bit(m.spec_cells()[idx], q as u64) == bit(
        sources[i].table.spec_cells()[idx],
        source_position(sources[i], r) as u64,
    ));
}

/// Round trip on empty cells: an index at which no flag of the table's
/// space is set holds the packed value zero, and the `NoFlagsSet` accessor
/// holds there.
pub proof fn lemma_empty_cell_round_trip(t: Table, idx: int)
    requires
        t.wf(),
        0 <= idx < t.spec_len(),
        forall|f: u64|
            f < t.spec_space().spec_count() ==> !(#[trigger] bit(t.spec_cells()[idx], f)),
    ensures
        t.spec_cells()[idx] == 0,
        (NoFlagsSet {  }).spec_check(t.spec_cells()[idx]),
{
    let v = t.spec_cells()[idx];
    if v != 0 {
        lemma_nonzero_has_bit(v);
        let p = choose|p: u64| #[trigger] bit(v, p);
        assert(p < t.spec_space().spec_count());
        assert(false);
    }
}

} // verus!

//! Merging tables: one combined table from an ordered list of sources.
//!
//! A merge takes `(source table, selected flag names)` pairs, all of one
//! index length, and lays the selected flags out contiguously in a target
//! value domain: the first source occupies the highest bits, the last source
//! the lowest. Within a source, a selected flag's merged position is the
//! source's bit offset plus the rank of the flag's own in-source position
//! among the selected positions — the selection is laid out sorted by
//! in-source position, so the order in which the names are listed does not
//! matter. For a selection of a whole source, or of the first flags of one,
//! every flag thereby keeps its in-source position, shifted by the offset.
//! Every output cell is reconstructed so that each selected flag is present
//! at an index exactly where its source table had it.

use crate::bits::{bit, lemma_mask_bit, lemma_or_bit, lemma_zero_bit, mask_of};
use crate::domain::ValueDomain;
use crate::space::{BuildError, FlagSpace};
use crate::table::Table;
use vstd::prelude::*;

verus! {

/// One source of a merge: a table and the names of the flags to carry over.
pub struct MergeSource {
    /// The table the flags are read from.
    pub table: Table,
    /// The names of the selected flags; their order carries no meaning.
    pub flags: Vec<String>,
}

/// The summed selected-flag counts of the sources from `i` on.
pub open spec fn count_from(sources: Seq<MergeSource>, i: int) -> nat
    decreases sources.len() - i,
{
    if i < 0 || i >= sources.len() {
        0
    } else {
        sources[i].flags@.len() + count_from(sources, i + 1)
    }
}

/// The summed selected-flag counts of all sources.
pub open spec fn total_flags(sources: Seq<MergeSource>) -> nat {
    count_from(sources, 0)
}

/// The summed selected-flag counts of the sources before `i`.
pub open spec fn count_upto(sources: Seq<MergeSource>, i: int) -> nat
    decreases i,
{
    if i <= 0 {
        0
    } else {
        count_upto(sources, i - 1) + sources[i - 1].flags@.len()
    }
}

/// The declaration-order index of selected flag `r` of source `i` within
/// the concatenation of all the selection lists.
pub open spec fn flat_index(sources: Seq<MergeSource>, i: int, r: int) -> int {
    count_upto(sources, i) + r
}

/// The bit offset of source `i` in the merged layout: the summed selected
/// counts of all sources declared after it.
pub open spec fn spec_offset(sources: Seq<MergeSource>, i: int) -> int {
    count_from(sources, i + 1) as int
}

/// Whether `r` indexes a selected flag of source `i`.
pub open spec fn valid_sel(sources: Seq<MergeSource>, i: int, r: int) -> bool {
    0 <= i < sources.len() && 0 <= r < sources[i].flags@.len()
}

/// The position, in source `i`'s own flag space, of its `r`-th selected flag.
pub open spec fn source_position(s: MergeSource, r: int) -> int {
    s.table.spec_space().position_of(s.flags@[r]@)
}

/// How many of the first `upto` selected flags of `s` have an in-source
/// position below `p`.
pub open spec fn rank_below(s: MergeSource, p: int, upto: int) -> nat
    decreases upto,
{
    if upto <= 0 {
        0
    } else {
        rank_below(s, p, upto - 1) + if source_position(s, upto - 1) < p {
            1nat
        } else {
            0nat
        }
    }
}

/// The rank of the `r`-th selected flag's in-source position among all the
/// selected positions of its source: the flag's bit index within its
/// source's merged window.
pub open spec fn sel_rank(s: MergeSource, r: int) -> int {
    rank_below(s, source_position(s, r), s.flags@.len() as int) as int
}

spec fn count_eq(s: MergeSource, p: int, upto: int) -> nat
    decreases upto,
{
    if upto <= 0 {
        0
    } else {
        count_eq(s, p, upto - 1) + if source_position(s, upto - 1) == p {
            1nat
        } else {
            0nat
        }
    }
}

spec fn sel_positions_distinct(s: MergeSource) -> bool {
    forall|r1: int, r2: int|
        0 <= r1 < r2 < s.flags@.len() ==> source_position(s, r1) != source_position(s, r2)
}

spec fn all_sel_positions_distinct(sources: Seq<MergeSource>) -> bool {
    forall|i: int| 0 <= i < sources.len() ==> sel_positions_distinct(#[trigger] sources[i])
}

proof fn lemma_count_from_le(sources: Seq<MergeSource>, a: int, b: int)
    requires
        0 <= a <= b,
    ensures
        count_from(sources, a) >= count_from(sources, b),
    decreases b - a,
{
    if a < b {
        lemma_count_from_le(sources, a + 1, b);
    }
}

proof fn lemma_count_upto_mono(sources: Seq<MergeSource>, a: int, b: int)
    requires
        0 <= a <= b,
    ensures
        count_upto(sources, a) <= count_upto(sources, b),
    decreases b - a,
{
    if a < b {
        lemma_count_upto_mono(sources, a, b - 1);
    }
}

proof fn lemma_count_split(sources: Seq<MergeSource>, i: int)
    requires
        0 <= i <= sources.len(),
    ensures
        count_upto(sources, i) + count_from(sources, i) == total_flags(sources),
    decreases i,
{
    if i > 0 {
        lemma_count_split(sources, i - 1);
        assert(count_from(sources, i - 1) == sources[i - 1].flags@.len() + count_from(sources, i));
    }
}

/// Distinct merged bit positions: the offset windows of the sources are
/// pairwise disjoint, so a window index of one source never collides with a
/// window index of another.
pub proof fn lemma_positions_injective(sources: Seq<MergeSource>, i: int, r: int, j: int, r2: int)
    requires
        valid_sel(sources, i, r),
        valid_sel(sources, j, r2),
        spec_offset(sources, i) + r == spec_offset(sources, j) + r2,
    ensures
        i == j && r == r2,
{
    if i < j {
        lemma_count_from_le(sources, i + 1, j);
        assert(count_from(sources, j) == sources[j].flags@.len() + count_from(sources, j + 1));
        assert(false);
    }
    if j < i {
        lemma_count_from_le(sources, j + 1, i);
        assert(count_from(sources, i) == sources[i].flags@.len() + count_from(sources, i + 1));
        assert(false);
    }
}

/// The merged bit positions of source `i`'s window all lie below the total.
pub proof fn lemma_position_bound(sources: Seq<MergeSource>, i: int, r: int)
    requires
        valid_sel(sources, i, r),
    ensures
        spec_offset(sources, i) + r < total_flags(sources),
{
    lemma_count_from_le(sources, 0, i);
    assert(count_from(sources, i) == sources[i].flags@.len() + count_from(sources, i + 1));
}

proof fn lemma_rank_below_le(s: MergeSource, p: int, u: int)
    requires
        0 <= u,
    ensures
        rank_below(s, p, u) <= u,
    decreases u,
{
    if u > 0 {
        lemma_rank_below_le(s, p, u - 1);
    }
}

proof fn lemma_rank_below_mono(s: MergeSource, p1: int, p2: int, u: int)
    requires
        p1 <= p2,
        0 <= u,
    ensures
        rank_below(s, p1, u) <= rank_below(s, p2, u),
    decreases u,
{
    if u > 0 {
        lemma_rank_below_mono(s, p1, p2, u - 1);
    }
}

proof fn lemma_rank_below_strict(s: MergeSource, r1: int, p2: int, u: int)
    requires
        0 <= r1 < u,
        source_position(s, r1) < p2,
    ensures
        rank_below(s, source_position(s, r1), u) < rank_below(s, p2, u),
    decreases u,
{
    if u - 1 == r1 {
        lemma_rank_below_mono(s, source_position(s, r1), p2, r1);
    } else {
        lemma_rank_below_strict(s, r1, p2, u - 1);
    }
}

proof fn lemma_rank_entry_bound(s: MergeSource, r: int, u: int)
    requires
        0 <= r < u,
    ensures
        rank_below(s, source_position(s, r), u) <= u - 1,
    decreases u,
{
    if u - 1 == r {
        lemma_rank_below_le(s, source_position(s, r), r);
    } else {
        lemma_rank_entry_bound(s, r, u - 1);
    }
}

/// A selected flag's rank lies within its source's merged window.
pub proof fn lemma_sel_rank_bound(s: MergeSource, r: int)
    requires
        0 <= r < s.flags@.len(),
    ensures
        sel_rank(s, r) < s.flags@.len(),
{
    lemma_rank_entry_bound(s, r, s.flags@.len() as int);
}

proof fn lemma_sel_rank_injective(s: MergeSource, r1: int, r2: int)
    requires
        0 <= r1 < s.flags@.len(),
        0 <= r2 < s.flags@.len(),
        r1 != r2,
        sel_positions_distinct(s),
    ensures
        sel_rank(s, r1) != sel_rank(s, r2),
{
    if source_position(s, r1) < source_position(s, r2) {
        lemma_rank_below_strict(s, r1, source_position(s, r2), s.flags@.len() as int);
    } else if source_position(s, r2) < source_position(s, r1) {
        lemma_rank_below_strict(s, r2, source_position(s, r1), s.flags@.len() as int);
    } else {
        if r1 < r2 {
            assert(source_position(s, r1) != source_position(s, r2));
        } else {
            assert(source_position(s, r2) != source_position(s, r1));
        }
        assert(false);
    }
}

proof fn lemma_rank_step(s: MergeSource, p: int, u: int)
    requires
        0 <= u,
    ensures
        rank_below(s, p + 1, u) == rank_below(s, p, u) + count_eq(s, p, u),
    decreases u,
{
    if u > 0 {
        lemma_rank_step(s, p, u - 1);
    }
}

proof fn lemma_count_eq_one(s: MergeSource, p: int, rp: int, u: int)
    requires
        0 <= rp < u,
        source_position(s, rp) == p,
        forall|r2: int| 0 <= r2 < u && r2 != rp ==> source_position(s, r2) != p,
    ensures
        count_eq(s, p, u) == 1,
    decreases u,
{
    if u - 1 == rp {
        lemma_count_eq_zero(s, p, rp);
    } else {
        lemma_count_eq_one(s, p, rp, u - 1);
    }
}

proof fn lemma_count_eq_zero(s: MergeSource, p: int, u: int)
    requires
        0 <= u,
        forall|r2: int| 0 <= r2 < u ==> source_position(s, r2) != p,
    ensures
        count_eq(s, p, u) == 0,
    decreases u,
{
    if u > 0 {
        lemma_count_eq_zero(s, p, u - 1);
    }
}

proof fn lemma_rank_full(s: MergeSource, p: int, u: int)
    requires
        0 <= u,
        forall|r: int| 0 <= r < u ==> source_position(s, r) < p,
    ensures
        rank_below(s, p, u) == u,
    decreases u,
{
    if u > 0 {
        lemma_rank_full(s, p, u - 1);
    }
}

proof fn lemma_rank_none(s: MergeSource, p: int, u: int)
    requires
        0 <= u,
        forall|r: int| 0 <= r < u ==> source_position(s, r) >= p,
    ensures
        rank_below(s, p, u) == 0,
    decreases u,
{
    if u > 0 {
        lemma_rank_none(s, p, u - 1);
    }
}

/// The relation a successful merge establishes between the merged table,
/// the target domain and length, and the sources: the merged space holds
/// exactly the selected flags, named as in their sources, each at its
/// source's offset plus the rank of its in-source position among the
/// selected ones, and every selected flag is present at an output index
/// exactly where its source table had it.
pub open spec fn merged_from(
    m: Table,
    domain: ValueDomain,
    length: nat,
    sources: Seq<MergeSource>,
) -> bool {
    &&& m.wf()
    &&& m.spec_space().spec_domain() == domain
    &&& m.spec_len() == length
    &&& m.spec_space().spec_count() == total_flags(sources)
    &&& forall|i: int, r: int|
        #[trigger] valid_sel(sources, i, r) ==> m.spec_space().spec_name(
            spec_offset(sources, i) + sel_rank(sources[i], r),
        ) == sources[i].flags@[r]@
    &&& forall|i: int, r: int|
        #[trigger] valid_sel(sources, i, r) ==> sources[i].table.spec_space().has_flag(
            sources[i].flags@[r]@,
        )
    &&& forall|i: int, r: int, idx: int|
        #![trigger valid_sel(sources, i, r), m.spec_cells()[idx]]
        valid_sel(sources, i, r) && 0 <= idx < length ==> bit(
            m.spec_cells()[idx],
            (spec_offset(sources, i) + sel_rank(sources[i], r)) as u64,
        ) == bit(
            sources[i].table.spec_cells()[idx],
            source_position(sources[i], r) as u64,
        )
}

/// Whether every source table is well formed; the validity a merge assumes
/// of its inputs.
pub open spec fn sources_wf(sources: Seq<MergeSource>) -> bool {
    forall|i: int| 0 <= i < sources.len() ==> (#[trigger] sources[i]).table.wf()
}

/// Whether every source table has the declared index length.
pub open spec fn lengths_match(sources: Seq<MergeSource>, length: nat) -> bool {
    forall|i: int| 0 <= i < sources.len() ==> (#[trigger] sources[i]).table.spec_len() == length
}

/// Whether every selected flag name is defined by its source table.
pub open spec fn names_resolve(sources: Seq<MergeSource>) -> bool {
    forall|i: int, r: int|
        #[trigger] valid_sel(sources, i, r) ==> sources[i].table.spec_space().has_flag(
            sources[i].flags@[r]@,
        )
}

/// Whether no flag name is selected twice across the whole merge.
pub open spec fn selections_distinct(sources: Seq<MergeSource>) -> bool {
    forall|i: int, r: int, j: int, r2: int|
        #[trigger] valid_sel(sources, i, r) && #[trigger] valid_sel(sources, j, r2) && !(i == j && r
            == r2) ==> sources[i].flags@[r]@ != sources[j].flags@[r2]@
}

/// Two distinct selected flags, at declaration-order indices `first` and
/// `second` of the concatenated selections, carrying the same name.
pub open spec fn selection_pair_clash(sources: Seq<MergeSource>, first: int, second: int) -> bool {
    exists|i: int, r: int, j: int, r2: int|
        #[trigger] valid_sel(sources, i, r) && #[trigger] valid_sel(sources, j, r2) && first
            == flat_index(sources, i, r) && second == flat_index(sources, j, r2) && !(i == j && r
            == r2) && sources[i].flags@[r]@ == sources[j].flags@[r2]@
}

spec fn positions_ok(positions: Seq<Vec<u64>>, sources: Seq<MergeSource>, upto: int) -> bool {
    &&& forall|i: int|
        0 <= i < upto ==> (#[trigger] positions[i])@.len() == sources[i].flags@.len()
    &&& forall|i: int, r: int|
        0 <= i < upto && 0 <= r < positions[i]@.len() ==> {
            &&& (#[trigger] positions[i]@[r]) as int == source_position(sources[i], r)
            &&& positions[i]@[r] < sources[i].table.spec_space().spec_count()
            &&& sources[i].table.spec_space().has_flag(sources[i].flags@[r]@)
        }
}

spec fn no_dup_upto(sources: Seq<MergeSource>, j: int, r2: int) -> bool {
    forall|a: int, b: int, a2: int, b2: int|
        #![trigger valid_sel(sources, a, b), valid_sel(sources, a2, b2)]
        valid_sel(sources, a, b) && valid_sel(sources, a2, b2) && (a < a2 || (a == a2 && b < b2))
            && (a2 < j || (a2 == j && b2 < r2)) ==> sources[a].flags@[b]@ != sources[a2].flags@[b2]@
}

spec fn cur_checked(sources: Seq<MergeSource>, j: int, r2: int, i: int, r: int) -> bool {
    forall|a: int, b: int|
        #[trigger] valid_sel(sources, a, b) && (a < i || (a == i && b < r)) && (a < j || (a == j
            && b < r2)) ==> sources[a].flags@[b]@ != sources[j].flags@[r2]@
}

/// Whether the selected flag `r` of source `j` is present at index `idx` of
/// its source table.
spec fn sel_bit(sources: Seq<MergeSource>, idx: int, j: int, r: int) -> bool {
    bit(sources[j].table.spec_cells()[idx], source_position(sources[j], r) as u64)
}

spec fn merged_bit_from(sources: Seq<MergeSource>, idx: int, lo: int, q: u64) -> bool {
    exists|j: int, r: int|
        lo <= j && #[trigger] valid_sel(sources, j, r) && q == spec_offset(sources, j) + sel_rank(
            sources[j],
            r,
        ) && sel_bit(sources, idx, j, r)
}

spec fn partial_bit(sources: Seq<MergeSource>, idx: int, i: int, bound: int, q: u64) -> bool {
    exists|r: int|
        0 <= r < sources[i].flags@.len() && source_position(sources[i], r) < bound && q
            == spec_offset(sources, i) + sel_rank(sources[i], r) && #[trigger] sel_bit(
            sources,
            idx,
            i,
            r,
        )
}

spec fn slot_covered(sources: Seq<MergeSource>, names: Seq<String>, lo: int, q: int) -> bool {
    exists|j: int, r: int|
        lo <= j && #[trigger] valid_sel(sources, j, r) && q == spec_offset(sources, j) + sel_rank(
            sources[j],
            r,
        ) && names[q]@ == sources[j].flags@[r]@
}

proof fn lemma_partial_step_sel(
    sources: Seq<MergeSource>,
    idx: int,
    i: int,
    p: int,
    rp: int,
    q: u64,
)
    requires
        0 <= i < sources.len(),
        0 <= rp < sources[i].flags@.len(),
        source_position(sources[i], rp) == p,
        forall|r2: int|
            0 <= r2 < sources[i].flags@.len() && r2 != rp ==> source_position(sources[i], r2) != p,
    ensures
        partial_bit(sources, idx, i, p + 1, q) == (partial_bit(sources, idx, i, p, q) || (q
            == spec_offset(sources, i) + sel_rank(sources[i], rp) && sel_bit(sources, idx, i, rp))),
{
    let s = sources[i];
    if partial_bit(sources, idx, i, p, q) {
        let r0 = choose|r0: int|
            0 <= r0 < s.flags@.len() && source_position(s, r0) < p && q == spec_offset(sources, i)
                + sel_rank(s, r0) && #[trigger] sel_bit(sources, idx, i, r0);
        assert(source_position(s, r0) < p + 1);
        assert(partial_bit(sources, idx, i, p + 1, q));
    }
    if q == spec_offset(sources, i) + sel_rank(s, rp) && sel_bit(sources, idx, i, rp) {
        assert(source_position(s, rp) < p + 1);
        assert(partial_bit(sources, idx, i, p + 1, q));
    }
    if partial_bit(sources, idx, i, p + 1, q) {
        let r0 = choose|r0: int|
            0 <= r0 < s.flags@.len() && source_position(s, r0) < p + 1 && q == spec_offset(
                sources,
                i,
            ) + sel_rank(s, r0) && #[trigger] sel_bit(sources, idx, i, r0);
        if source_position(s, r0) < p {
            assert(partial_bit(sources, idx, i, p, q));
        } else {
            assert(r0 == rp);
        }
    }
}

proof fn lemma_partial_step_none(sources: Seq<MergeSource>, idx: int, i: int, p: int, q: u64)
    requires
        0 <= i < sources.len(),
        forall|r2: int| 0 <= r2 < sources[i].flags@.len() ==> source_position(sources[i], r2) != p,
    ensures
        partial_bit(sources, idx, i, p + 1, q) == partial_bit(sources, idx, i, p, q),
{
    let s = sources[i];
    if partial_bit(sources, idx, i, p, q) {
        let r0 = choose|r0: int|
            0 <= r0 < s.flags@.len() && source_position(s, r0) < p && q == spec_offset(sources, i)
                + sel_rank(s, r0) && #[trigger] sel_bit(sources, idx, i, r0);
        assert(source_position(s, r0) < p + 1);
        assert(partial_bit(sources, idx, i, p + 1, q));
    }
    if partial_bit(sources, idx, i, p + 1, q) {
        let r0 = choose|r0: int|
            0 <= r0 < s.flags@.len() && source_position(s, r0) < p + 1 && q == spec_offset(
                sources,
                i,
            ) + sel_rank(s, r0) && #[trigger] sel_bit(sources, idx, i, r0);
        assert(source_position(s, r0) < p);
        assert(partial_bit(sources, idx, i, p, q));
    }
}

proof fn lemma_merged_bit_unfold(sources: Seq<MergeSource>, idx: int, i: int, bound: int, q: u64)
    requires
        0 <= i < sources.len(),
        forall|r: int| 0 <= r < sources[i].flags@.len() ==> source_position(sources[i], r) < bound,
    ensures
        merged_bit_from(sources, idx, i, q) == (merged_bit_from(sources, idx, i + 1, q)
            || partial_bit(sources, idx, i, bound, q)),
{
    let s = sources[i];
    if merged_bit_from(sources, idx, i, q) {
        let (j, r) = choose|j: int, r: int|
            i <= j && #[trigger] valid_sel(sources, j, r) && q == spec_offset(sources, j)
                + sel_rank(sources[j], r) && sel_bit(sources, idx, j, r);
        if j == i {
            assert(source_position(s, r) < bound);
            assert(0 <= r < s.flags@.len() && source_position(s, r) < bound && q == spec_offset(
                sources,
                i,
            ) + sel_rank(s, r) && sel_bit(sources, idx, i, r));
        } else {
            assert(i + 1 <= j && valid_sel(sources, j, r) && q == spec_offset(sources, j)
                + sel_rank(sources[j], r) && sel_bit(sources, idx, j, r));
        }
    }
    if merged_bit_from(sources, idx, i + 1, q) {
        let (j, r) = choose|j: int, r: int|
            i + 1 <= j && #[trigger] valid_sel(sources, j, r) && q == spec_offset(sources, j)
                + sel_rank(sources[j], r) && sel_bit(sources, idx, j, r);
        assert(i <= j && valid_sel(sources, j, r) && q == spec_offset(sources, j) + sel_rank(
            sources[j],
            r,
        ) && sel_bit(sources, idx, j, r));
    }
    if partial_bit(sources, idx, i, bound, q) {
        let r = choose|r: int|
            0 <= r < s.flags@.len() && source_position(s, r) < bound && q == spec_offset(sources, i)
                + sel_rank(s, r) && #[trigger] sel_bit(sources, idx, i, r);
        assert(i <= i && valid_sel(sources, i, r) && q == spec_offset(sources, i) + sel_rank(s, r)
            && sel_bit(sources, idx, i, r));
    }
}

proof fn lemma_merged_bit_at(sources: Seq<MergeSource>, idx: int, i: int, r: int)
    requires
        valid_sel(sources, i, r),
        total_flags(sources) <= 64,
        all_sel_positions_distinct(sources),
    ensures
        merged_bit_from(sources, idx, 0, (spec_offset(sources, i) + sel_rank(sources[i], r)) as u64)
            == sel_bit(sources, idx, i, r),
{
    lemma_sel_rank_bound(sources[i], r);
    lemma_position_bound(sources, i, sel_rank(sources[i], r));
    let q = (spec_offset(sources, i) + sel_rank(sources[i], r)) as u64;
    if sel_bit(sources, idx, i, r) {
        assert(0 <= i && valid_sel(sources, i, r) && q == spec_offset(sources, i) + sel_rank(
            sources[i],
            r,
        ) && sel_bit(sources, idx, i, r));
    }
    if merged_bit_from(sources, idx, 0, q) {
        let (j, r2) = choose|j: int, r2: int|
            0 <= j && #[trigger] valid_sel(sources, j, r2) && q == spec_offset(sources, j)
                + sel_rank(sources[j], r2) && sel_bit(sources, idx, j, r2);
        lemma_sel_rank_bound(sources[j], r2);
        lemma_positions_injective(
            sources,
            i,
            sel_rank(sources[i], r),
            j,
            sel_rank(sources[j], r2),
        );
        if r != r2 {
            lemma_sel_rank_injective(sources[i], r, r2);
            assert(false);
        }
    }
}

fn find_position(prow: &Vec<u64>, p: u64) -> (r: Option<usize>)
    ensures
        r matches Some(idx) ==> idx < prow@.len() && prow@[idx as int] == p,
        r is None ==> forall|t: int| 0 <= t < prow@.len() ==> prow@[t] != p,
{
    let mut t: usize = 0;
    while t < prow.len()
        invariant
            t <= prow@.len(),
            forall|a: int| 0 <= a < t ==> prow@[a] != p,
        decreases prow@.len() - t,
    {
        if prow[t] == p {
            return Some(t);
        }
        t += 1;
    }
    None
}

/// Build one combined table over a target value domain from an ordered list
/// of sources. Validation comes first and never silently degrades: every
/// source must have the declared length, every selected name must exist in
/// its source, the summed selected counts must fit the target width, and no
/// name may be selected twice. The first source occupies the highest bits;
/// within a source, each selected flag sits at the source's offset plus the
/// rank of its in-source position among the selected ones — independent of
/// the order the names were listed in — and is present at an output index
/// exactly where its source table had it.
pub fn merge(domain: ValueDomain, length: usize, sources: &Vec<MergeSource>) -> (r: Result<
    Table,
    BuildError,
>)
    requires
        sources_wf(sources@),
    ensures
        r is Ok <==> {
            &&& lengths_match(sources@, length as nat)
            &&& names_resolve(sources@)
            &&& total_flags(sources@) <= domain.spec_width()
            &&& selections_distinct(sources@)
        },
        r matches Ok(m) ==> merged_from(m, domain, length as nat, sources@),
        !lengths_match(sources@, length as nat) ==> (r matches Err(BuildError::LengthMismatch {
            source,
        }) && 0 <= source < sources@.len() && sources@[source as int].table.spec_len() != length),
        lengths_match(sources@, length as nat) && !names_resolve(sources@) ==> (r matches Err(
            BuildError::NoSuchFlag { source, flag },
        ) && valid_sel(sources@, source as int, flag as int) && !sources@[
            source as int
        ].table.spec_space().has_flag(sources@[source as int].flags@[flag as int]@)),
        lengths_match(sources@, length as nat) && names_resolve(sources@) && total_flags(sources@)
            > domain.spec_width() ==> r == Err::<Table, BuildError>(
            BuildError::MergeOverflow { width: domain.spec_width() },
        ),
        lengths_match(sources@, length as nat) && names_resolve(sources@) && total_flags(sources@)
            <= domain.spec_width() && !selections_distinct(sources@) ==> (r matches Err(
            BuildError::DuplicateFlagName { first, second },
        ) && 0 <= first < second < total_flags(sources@) && selection_pair_clash(
            sources@,
            first as int,
            second as int,
        )),
{
    let k = sources.len();
    let mut i: usize = 0;
    while i < k
        invariant
            k == sources@.len(),
            i <= k,
            forall|a: int| 0 <= a < i ==> (#[trigger] sources@[a]).table.spec_len() == length,
        decreases k - i,
    {
        if sources[i].table.len() != length {
            return Err(BuildError::LengthMismatch { source: i });
        }
        i += 1;
    }
    let mut positions: Vec<Vec<u64>> = Vec::new();
    let mut i: usize = 0;
    while i < k
        invariant
            sources_wf(sources@),
            k == sources@.len(),
            i <= k,
            lengths_match(sources@, length as nat),
            positions@.len() == i,
            positions_ok(positions@, sources@, i as int),
        decreases k - i,
    {
        let src = &sources[i];
        let mut row: Vec<u64> = Vec::new();
        let mut r: usize = 0;
        while r < src.flags.len()
            invariant
                sources_wf(sources@),
                k == sources@.len(),
                lengths_match(sources@, length as nat),
                0 <= i < k,
                *src == sources@[i as int],
                row@.len() == r,
                r <= src.flags@.len(),
                forall|r0: int|
                    0 <= r0 < r ==> {
                        &&& (#[trigger] row@[r0]) as int == source_position(sources@[i as int], r0)
                        &&& row@[r0] < sources@[i as int].table.spec_space().spec_count()
                        &&& sources@[i as int].table.spec_space().has_flag(
                            sources@[i as int].flags@[r0]@,
                        )
                    },
            decreases src.flags@.len() - r,
        {
            match src.table.flag(&src.flags[r]) {
                Some(f) => {
                    row.push(f.position());
                },
                None => {
                    proof {
                        assert(valid_sel(sources@, i as int, r as int));
                        assert(!names_resolve(sources@));
                    }
                    return Err(BuildError::NoSuchFlag { source: i, flag: r });
                },
            }
            r += 1;
        }
        let ghost row_view = row@;
        let ghost positions_old = positions@;
        positions.push(row);
        proof {
            assert(positions@[i as int]@ == row_view);
            assert forall|a: int, r0: int|
                0 <= a < i + 1 && 0 <= r0 < positions@[a]@.len() implies {
                &&& (#[trigger] positions@[a]@[r0]) as int == source_position(sources@[a], r0)
                &&& positions@[a]@[r0] < sources@[a].table.spec_space().spec_count()
                &&& sources@[a].table.spec_space().has_flag(sources@[a].flags@[r0]@)
            } by {
                if a < i {
                    assert(positions@[a] == positions_old[a]);
                    assert(positions_old[a]@[r0] as int == source_position(sources@[a], r0));
                }
            }
        }
        i += 1;
    }
    assert(names_resolve(sources@)) by {
        assert forall|a: int, r0: int| #[trigger] valid_sel(sources@, a, r0) implies sources@[
            a
        ].table.spec_space().has_flag(sources@[a].flags@[r0]@) by {
            assert(positions@[a]@.len() == sources@[a].flags@.len());
            assert(positions@[a]@[r0] as int == source_position(sources@[a], r0));
        }
    }
    let width = domain.width();
    let mut total: u64 = 0;
    let mut i: usize = 0;
    while i < k
        invariant
            k == sources@.len(),
            i <= k,
            lengths_match(sources@, length as nat),
            names_resolve(sources@),
            width == domain.spec_width(),
            total == count_upto(sources@, i as int),
            total <= width,
        decreases k - i,
    {
        let c = sources[i].flags.len();
        if c as u64 > width - total {
            proof {
                assert(count_upto(sources@, i as int + 1) == count_upto(sources@, i as int)
                    + sources@[i as int].flags@.len());
                lemma_count_split(sources@, i as int + 1);
            }
            return Err(BuildError::MergeOverflow { width });
        }
        total = total + c as u64;
        proof {
            assert(count_upto(sources@, i as int + 1) == count_upto(sources@, i as int)
                + sources@[i as int].flags@.len());
        }
        i += 1;
    }
    proof {
        lemma_count_split(sources@, k as int);
        assert(total == total_flags(sources@));
        assert(domain.spec_width() <= 64);
    }
    let mut j2: usize = 0;
    let mut flat_j: usize = 0;
    while j2 < k
        invariant
            k == sources@.len(),
            j2 <= k,
            lengths_match(sources@, length as nat),
            names_resolve(sources@),
            total_flags(sources@) <= domain.spec_width() <= 64,
            flat_j == count_upto(sources@, j2 as int),
            flat_j <= 64,
            no_dup_upto(sources@, j2 as int, 0),
        decreases k - j2,
    {
        let c2 = sources[j2].flags.len();
        proof {
            assert(count_upto(sources@, j2 as int + 1) == count_upto(sources@, j2 as int)
                + sources@[j2 as int].flags@.len());
            lemma_count_upto_mono(sources@, j2 as int + 1, k as int);
            lemma_count_split(sources@, k as int);
        }
        let mut r2: usize = 0;
        while r2 < c2
            invariant
                k == sources@.len(),
                lengths_match(sources@, length as nat),
                names_resolve(sources@),
                total_flags(sources@) <= domain.spec_width() <= 64,
                0 <= j2 < k,
                c2 == sources@[j2 as int].flags@.len(),
                flat_j == count_upto(sources@, j2 as int),
                flat_j + c2 <= 64,
                r2 <= c2,
                no_dup_upto(sources@, j2 as int, r2 as int),
            decreases c2 - r2,
        {
            let mut i3: usize = 0;
            let mut flat_i: usize = 0;
            while i3 < j2
                invariant
                    k == sources@.len(),
                    lengths_match(sources@, length as nat),
                    names_resolve(sources@),
                    total_flags(sources@) <= domain.spec_width() <= 64,
                    0 <= j2 < k,
                    c2 == sources@[j2 as int].flags@.len(),
                    flat_j == count_upto(sources@, j2 as int),
                    flat_j + c2 <= 64,
                    0 <= r2 < c2,
                    i3 <= j2,
                    flat_i == count_upto(sources@, i3 as int),
                    flat_i <= 64,
                    no_dup_upto(sources@, j2 as int, r2 as int),
                    cur_checked(sources@, j2 as int, r2 as int, i3 as int, 0),
                decreases j2 - i3,
            {
                let ci = sources[i3].flags.len();
                proof {
                    assert(count_upto(sources@, i3 as int + 1) == count_upto(sources@, i3 as int)
                        + sources@[i3 as int].flags@.len());
                    lemma_count_upto_mono(sources@, i3 as int + 1, k as int);
                    lemma_count_split(sources@, k as int);
                }
                let mut r3: usize = 0;
                while r3 < ci
                    invariant
                        k == sources@.len(),
                        lengths_match(sources@, length as nat),
                        names_resolve(sources@),
                        total_flags(sources@) <= domain.spec_width() <= 64,
                        0 <= j2 < k,
                        c2 == sources@[j2 as int].flags@.len(),
                        flat_j == count_upto(sources@, j2 as int),
                        0 <= r2 < c2,
                        0 <= i3 < j2,
                        ci == sources@[i3 as int].flags@.len(),
                        flat_i == count_upto(sources@, i3 as int),
                        flat_i + ci <= 64,
                        flat_j + c2 <= 64,
                        r3 <= ci,
                        no_dup_upto(sources@, j2 as int, r2 as int),
                        cur_checked(sources@, j2 as int, r2 as int, i3 as int, r3 as int),
                    decreases ci - r3,
                {
                    if sources[i3].flags[r3] == sources[j2].flags[r2] {
                        proof {
                            assert(valid_sel(sources@, i3 as int, r3 as int));
                            assert(valid_sel(sources@, j2 as int, r2 as int));
                            assert(!selections_distinct(sources@));
                            assert(count_upto(sources@, i3 as int + 1) == count_upto(
                                sources@,
                                i3 as int,
                            ) + sources@[i3 as int].flags@.len());
                            lemma_count_upto_mono(sources@, i3 as int + 1, j2 as int);
                            assert(count_upto(sources@, j2 as int + 1) == count_upto(
                                sources@,
                                j2 as int,
                            ) + sources@[j2 as int].flags@.len());
                            lemma_count_upto_mono(sources@, j2 as int + 1, k as int);
                            lemma_count_split(sources@, k as int);
                            assert(selection_pair_clash(
                                sources@,
                                flat_i + r3,
                                flat_j + r2,
                            ));
                        }
                        return Err(BuildError::DuplicateFlagName {
                            first: flat_i + r3,
                            second: flat_j + r2,
                        });
                    }
                    r3 += 1;
                }
                proof {
                    assert forall|a: int, b: int|
                        #[trigger] valid_sel(sources@, a, b) && (a < i3 + 1 || (a == i3 + 1 && b
                            < 0)) && (a < j2 || (a == j2 && b < r2)) implies sources@[
                        a
                    ].flags@[b]@ != sources@[j2 as int].flags@[r2 as int]@ by {
                        if a == i3 as int {
                            assert(b < ci);
                        }
                    }
                }
                flat_i = flat_i + ci;
                i3 += 1;
            }
            let mut r3: usize = 0;
            while r3 < r2
                invariant
                    k == sources@.len(),
                    lengths_match(sources@, length as nat),
                    names_resolve(sources@),
                    total_flags(sources@) <= domain.spec_width() <= 64,
                    0 <= j2 < k,
                    c2 == sources@[j2 as int].flags@.len(),
                    flat_j == count_upto(sources@, j2 as int),
                    flat_j + c2 <= 64,
                    0 <= r2 < c2,
                    r3 <= r2,
                    no_dup_upto(sources@, j2 as int, r2 as int),
                    cur_checked(sources@, j2 as int, r2 as int, j2 as int, r3 as int),
                decreases r2 - r3,
            {
                if sources[j2].flags[r3] == sources[j2].flags[r2] {
                    proof {
                        assert(valid_sel(sources@, j2 as int, r3 as int));
                        assert(valid_sel(sources@, j2 as int, r2 as int));
                        assert(!selections_distinct(sources@));
                        assert(count_upto(sources@, j2 as int + 1) == count_upto(
                            sources@,
                            j2 as int,
                        ) + sources@[j2 as int].flags@.len());
                        lemma_count_upto_mono(sources@, j2 as int + 1, k as int);
                        lemma_count_split(sources@, k as int);
                        assert(selection_pair_clash(sources@, flat_j + r3, flat_j + r2));
                    }
                    return Err(BuildError::DuplicateFlagName {
                        first: flat_j + r3,
                        second: flat_j + r2,
                    });
                }
                r3 += 1;
            }
            proof {
                assert forall|a: int, b: int, a2: int, b2: int|
                    #![trigger valid_sel(sources@, a, b), valid_sel(sources@, a2, b2)]
                    valid_sel(sources@, a, b) && valid_sel(sources@, a2, b2) && (a < a2 || (a == a2
                        && b < b2)) && (a2 < j2 || (a2 == j2 && b2 < r2 + 1)) implies sources@[
                    a
                ].flags@[b]@ != sources@[a2].flags@[b2]@ by {
                    if a2 == j2 as int && b2 == r2 as int {
                        assert(cur_checked(sources@, j2 as int, r2 as int, j2 as int, r2 as int));
                    }
                }
            }
            r2 += 1;
        }
        proof {
            assert forall|a: int, b: int, a2: int, b2: int|
                #![trigger valid_sel(sources@, a, b), valid_sel(sources@, a2, b2)]
                valid_sel(sources@, a, b) && valid_sel(sources@, a2, b2) && (a < a2 || (a == a2 && b
                    < b2)) && (a2 < j2 + 1 || (a2 == j2 + 1 && b2 < 0)) implies sources@[
                a
            ].flags@[b]@ != sources@[a2].flags@[b2]@ by {
                if a2 == j2 as int {
                    assert(b2 < c2);
                }
            }
            assert(count_upto(sources@, j2 as int + 1) == count_upto(sources@, j2 as int)
                + sources@[j2 as int].flags@.len());
        }
        flat_j = flat_j + c2;
        j2 += 1;
    }
    proof {
        assert(selections_distinct(sources@)) by {
            assert forall|a: int, b: int, a2: int, b2: int|
                #[trigger] valid_sel(sources@, a, b) && #[trigger] valid_sel(sources@, a2, b2)
                    && !(a == a2 && b == b2) implies sources@[a].flags@[b]@ != sources@[
                a2
            ].flags@[b2]@ by {
                if a < a2 || (a == a2 && b < b2) {
                    assert(no_dup_upto(sources@, k as int, 0));
                } else {
                    assert(a2 < a || (a2 == a && b2 < b));
                    assert(sources@[a2].flags@[b2]@ != sources@[a].flags@[b]@);
                }
            }
        }
        assert forall|i1: int|
            0 <= i1 < sources@.len() implies sel_positions_distinct(
            #[trigger] sources@[i1],
        ) by {
            assert forall|r1: int, r2: int|
                0 <= r1 < r2 < sources@[i1].flags@.len() implies source_position(sources@[i1], r1)
                != source_position(sources@[i1], r2) by {
                let s = sources@[i1];
                let sp = s.table.spec_space();
                assert(valid_sel(sources@, i1, r1));
                assert(valid_sel(sources@, i1, r2));
                assert(positions@[i1]@.len() == s.flags@.len());
                assert(positions@[i1]@[r1] as int == source_position(s, r1));
                assert(positions@[i1]@[r2] as int == source_position(s, r2));
                if source_position(s, r1) == source_position(s, r2) {
                    assert(sp.has_flag(s.flags@[r1]@));
                    assert(sp.has_flag(s.flags@[r2]@));
                    let p1 = sp.position_of(s.flags@[r1]@);
                    assert(0 <= p1 < sp.spec_count() && sp.spec_name(p1) == s.flags@[r1]@);
                    let p2 = sp.position_of(s.flags@[r2]@);
                    assert(0 <= p2 < sp.spec_count() && sp.spec_name(p2) == s.flags@[r2]@);
                    assert(s.flags@[r1]@ == s.flags@[r2]@);
                    assert(false);
                }
            }
        }
        assert(all_sel_positions_distinct(sources@));
    }
    let mut names: Vec<String> = Vec::new();
    let mut i: usize = k;
    while i > 0
        invariant
            sources_wf(sources@),
            k == sources@.len(),
            i <= k,
            positions@.len() == k,
            positions_ok(positions@, sources@, k as int),
            all_sel_positions_distinct(sources@),
            total_flags(sources@) <= domain.spec_width() <= 64,
            names@.len() == count_from(sources@, i as int),
            forall|j: int, r: int|
                i <= j < k && 0 <= r < sources@[j].flags@.len() ==> (#[trigger] names@[
                    spec_offset(sources@, j) + sel_rank(sources@[j], r)
                ])@ == sources@[j].flags@[r]@,
            forall|q: int| 0 <= q < names@.len() ==> slot_covered(sources@, names@, i as int, q),
        decreases i,
    {
        i -= 1;
        let src = &sources[i];
        let prow = &positions[i];
        let c = prow.len();
        let scount = src.table.space().flag_count();
        proof {
            assert(src.table.spec_space().spec_domain().spec_width() <= 64);
            assert(count_from(sources@, i as int) == sources@[i as int].flags@.len() + count_from(
                sources@,
                i as int + 1,
            ));
            lemma_count_from_le(sources@, 0, i as int);
            assert forall|r: int|
                0 <= r < c implies source_position(sources@[i as int], r) >= 0 by {
                assert(positions@[i as int]@[r] as int == source_position(sources@[i as int], r));
            }
            lemma_rank_none(sources@[i as int], 0, c as int);
            assert forall|j: int, r: int|
                (i as int) < j < k && 0 <= r < sources@[j].flags@.len() implies (names@[
                spec_offset(sources@, j) + sel_rank(sources@[j], r)
            ])@ == sources@[j].flags@[r]@ by {
                assert((names@[spec_offset(sources@, j) + sel_rank(sources@[j], r)])@ == sources@[
                    j
                ].flags@[r]@);
            }
            assert forall|q: int|
                0 <= q < names@.len() implies slot_covered(sources@, names@, i as int, q) by {
                assert(slot_covered(sources@, names@, i as int + 1, q));
                let (j, r) = choose|j: int, r: int|
                    i as int + 1 <= j && #[trigger] valid_sel(sources@, j, r) && q == spec_offset(
                        sources@,
                        j,
                    ) + sel_rank(sources@[j], r) && names@[q]@ == sources@[j].flags@[r]@;
                assert(i as int <= j && valid_sel(sources@, j, r) && q == spec_offset(sources@, j)
                    + sel_rank(sources@[j], r) && names@[q]@ == sources@[j].flags@[r]@);
            }
        }
        let mut p: usize = 0;
        while p < scount
            invariant
                sources_wf(sources@),
                k == sources@.len(),
                positions@.len() == k,
                positions_ok(positions@, sources@, k as int),
                all_sel_positions_distinct(sources@),
                total_flags(sources@) <= domain.spec_width() <= 64,
                0 <= i < k,
                *src == sources@[i as int],
                prow@ == positions@[i as int]@,
                c == sources@[i as int].flags@.len(),
                scount == sources@[i as int].table.spec_space().spec_count(),
                scount <= 64,
                p <= scount,
                count_from(sources@, i as int) == c + count_from(sources@, i as int + 1),
                count_from(sources@, i as int) <= total_flags(sources@),
                names@.len() == count_from(sources@, i as int + 1) + rank_below(
                    sources@[i as int],
                    p as int,
                    c as int,
                ),
                forall|r: int|
                    0 <= r < c && source_position(sources@[i as int], r) < p ==> sel_rank(
                        sources@[i as int],
                        r,
                    ) < rank_below(sources@[i as int], p as int, c as int) && (#[trigger] names@[
                        spec_offset(sources@, i as int) + sel_rank(sources@[i as int], r)
                    ])@ == sources@[i as int].flags@[r]@,
                forall|j: int, r: int|
                    i < j < k && 0 <= r < sources@[j].flags@.len() ==> (#[trigger] names@[
                        spec_offset(sources@, j) + sel_rank(sources@[j], r)
                    ])@ == sources@[j].flags@[r]@,
                forall|q: int|
                    0 <= q < names@.len() ==> slot_covered(sources@, names@, i as int, q),
            decreases scount - p,
        {
            let found = find_position(prow, p as u64);
            let ghost s = sources@[i as int];
            let ghost names_old = names@;
            let ghost old_rank = rank_below(s, p as int, c as int);
            proof {
                assert forall|r: int|
                    0 <= r < c && source_position(s, r) < p implies sel_rank(s, r) < old_rank && (
                #[trigger] names_old[spec_offset(sources@, i as int) + sel_rank(s, r)])@
                    == s.flags@[r]@ by {
                    assert((names@[spec_offset(sources@, i as int) + sel_rank(s, r)])@
                        == s.flags@[r]@);
                }
                assert forall|j: int, r: int|
                    (i as int) < j < k && 0 <= r < sources@[j].flags@.len() implies (
                #[trigger] names_old[spec_offset(sources@, j) + sel_rank(sources@[j], r)])@
                    == sources@[j].flags@[r]@ by {
                    assert((names@[spec_offset(sources@, j) + sel_rank(sources@[j], r)])@
                        == sources@[j].flags@[r]@);
                }
            }
            match found {
                Some(rp) => {
                    names.push(src.flags[rp].clone());
                    proof {
                        assert(positions@[i as int]@[rp as int] as int == source_position(
                            s,
                            rp as int,
                        ));
                        assert(source_position(s, rp as int) == p as int);
                        assert forall|r2: int|
                            0 <= r2 < c && r2 != rp implies source_position(s, r2) != p as int by {
                            assert(sel_positions_distinct(s));
                        }
                        lemma_rank_step(s, p as int, c as int);
                        lemma_count_eq_one(s, p as int, rp as int, c as int);
                        lemma_rank_below_le(s, p as int, c as int);
                        assert(sel_rank(s, rp as int) == old_rank);
                        assert forall|r: int|
                            0 <= r < c && source_position(s, r) < p as int + 1 implies sel_rank(
                            s,
                            r,
                        ) < rank_below(s, p as int + 1, c as int) && (names@[
                            spec_offset(sources@, i as int) + sel_rank(s, r)
                        ])@ == s.flags@[r]@ by {
                            if source_position(s, r) < p as int {
                                lemma_rank_below_strict(s, r, p as int, c as int);
                                assert(names@[spec_offset(sources@, i as int) + sel_rank(s, r)]
                                    == names_old[spec_offset(sources@, i as int) + sel_rank(
                                    s,
                                    r,
                                )]);
                            } else {
                                assert(r == rp);
                                assert(spec_offset(sources@, i as int) + sel_rank(s, rp as int)
                                    == names_old.len());
                            }
                        }
                        assert forall|j: int, r: int|
                            (i as int) < j < k && 0 <= r < sources@[j].flags@.len() implies (
                        names@[spec_offset(sources@, j) + sel_rank(sources@[j], r)])@ == sources@[
                            j
                        ].flags@[r]@ by {
                            lemma_sel_rank_bound(sources@[j], r);
                            lemma_count_from_le(sources@, i as int + 1, j);
                            assert(count_from(sources@, j) == sources@[j].flags@.len()
                                + count_from(sources@, j + 1));
                            assert((names_old[spec_offset(sources@, j) + sel_rank(
                                sources@[j],
                                r,
                            )])@ == sources@[j].flags@[r]@);
                            assert(spec_offset(sources@, j) + sel_rank(sources@[j], r)
                                < names_old.len());
                            assert(names@[spec_offset(sources@, j) + sel_rank(sources@[j], r)]
                                == names_old[spec_offset(sources@, j) + sel_rank(
                                sources@[j],
                                r,
                            )]);
                        }
                        assert forall|q: int|
                            0 <= q < names@.len() implies slot_covered(
                            sources@,
                            names@,
                            i as int,
                            q,
                        ) by {
                            if q < names_old.len() {
                                assert(slot_covered(sources@, names_old, i as int, q));
                                let (j, r) = choose|j: int, r: int|
                                    i as int <= j && #[trigger] valid_sel(sources@, j, r) && q
                                        == spec_offset(sources@, j) + sel_rank(sources@[j], r)
                                        && names_old[q]@ == sources@[j].flags@[r]@;
                                assert(names@[q] == names_old[q]);
                                assert(slot_covered(sources@, names@, i as int, q));
                            } else {
                                assert(q == names_old.len());
                                assert(valid_sel(sources@, i as int, rp as int));
                                assert(q == spec_offset(sources@, i as int) + sel_rank(
                                    s,
                                    rp as int,
                                ));
                                assert(names@[q]@ == s.flags@[rp as int]@);
                                assert(slot_covered(sources@, names@, i as int, q));
                            }
                        }
                    }
                },
                None => {
                    proof {
                        assert forall|r2: int|
                            0 <= r2 < c implies source_position(s, r2) != p as int by {
                            assert(positions@[i as int]@[r2] as int == source_position(s, r2));
                            assert(prow@[r2] != p as u64);
                        }
                        lemma_rank_step(s, p as int, c as int);
                        lemma_count_eq_zero(s, p as int, c as int);
                        assert forall|r: int|
                            0 <= r < c && source_position(s, r) < p as int + 1 implies sel_rank(
                            s,
                            r,
                        ) < rank_below(s, p as int + 1, c as int) && (names@[
                            spec_offset(sources@, i as int) + sel_rank(s, r)
                        ])@ == s.flags@[r]@ by {
                            assert(source_position(s, r) != p as int);
                            assert(source_position(s, r) < p as int);
                            assert((names@[spec_offset(sources@, i as int) + sel_rank(s, r)])@
                                == s.flags@[r]@);
                        }
                    }
                },
            }
            p += 1;
        }
        proof {
            assert forall|r: int|
                0 <= r < c implies source_position(sources@[i as int], r) < scount as int by {
                assert(positions@[i as int]@[r] as int == source_position(sources@[i as int], r));
            }
            lemma_rank_full(sources@[i as int], scount as int, c as int);
            assert forall|j: int, r: int|
                i as int <= j < k && 0 <= r < sources@[j].flags@.len() implies (names@[
                spec_offset(sources@, j) + sel_rank(sources@[j], r)
            ])@ == sources@[j].flags@[r]@ by {
                if j == i as int {
                    assert(positions@[i as int]@[r] as int == source_position(
                        sources@[i as int],
                        r,
                    ));
                    assert(source_position(sources@[i as int], r) < scount as int);
                    assert((names@[
                        spec_offset(sources@, i as int) + sel_rank(sources@[i as int], r)
                    ])@ == sources@[i as int].flags@[r]@);
                } else {
                    assert((names@[spec_offset(sources@, j) + sel_rank(sources@[j], r)])@
                        == sources@[j].flags@[r]@);
                }
            }
        }
    }
    let ghost names_view = names@;
    proof {
        assert(names_view.len() == total_flags(sources@));
        assert forall|j: int, r0: int|
            0 <= j < k && 0 <= r0 < sources@[j].flags@.len() implies (#[trigger] names_view[
            spec_offset(sources@, j) + sel_rank(sources@[j], r0)
        ])@ == sources@[j].flags@[r0]@ by {
            assert(names@[spec_offset(sources@, j) + sel_rank(sources@[j], r0)]@ == sources@[
                j
            ].flags@[r0]@);
        }
        assert forall|q1: int, q2: int|
            0 <= q1 < q2 < names_view.len() implies names_view[q1]@ != names_view[q2]@ by {
            assert(slot_covered(sources@, names_view, 0, q1));
            assert(slot_covered(sources@, names_view, 0, q2));
            let (j1, r1) = choose|j1: int, r1: int|
                0 <= j1 && #[trigger] valid_sel(sources@, j1, r1) && q1 == spec_offset(sources@, j1)
                    + sel_rank(sources@[j1], r1) && names_view[q1]@ == sources@[j1].flags@[r1]@;
            let (j2a, r2a) = choose|j2a: int, r2a: int|
                0 <= j2a && #[trigger] valid_sel(sources@, j2a, r2a) && q2 == spec_offset(
                    sources@,
                    j2a,
                ) + sel_rank(sources@[j2a], r2a) && names_view[q2]@ == sources@[j2a].flags@[r2a]@;
            if j1 == j2a && r1 == r2a {
                assert(false);
            }
        }
    }
    let space = match FlagSpace::new(domain, names) {
        Ok(s) => s,
        Err(e) => {
            proof {
                assert(false);
            }
            return Err(e);
        },
    };
    let mut cells: Vec<u64> = Vec::new();
    let mut idx: usize = 0;
    while idx < length
        invariant
            sources_wf(sources@),
            k == sources@.len(),
            lengths_match(sources@, length as nat),
            positions@.len() == k,
            positions_ok(positions@, sources@, k as int),
            all_sel_positions_distinct(sources@),
            total_flags(sources@) <= domain.spec_width() <= 64,
            idx <= length,
            cells@.len() == idx,
            forall|cc: int, q: u64|
                0 <= cc < idx ==> #[trigger] bit(cells@[cc], q) == merged_bit_from(
                    sources@,
                    cc,
                    0,
                    q,
                ),
        decreases length - idx,
    {
        let mut v: u64 = 0;
        let mut i2: usize = k;
        let mut base: u64 = 0;
        proof {
            assert forall|q: u64| #[trigger] bit(0u64, q) == merged_bit_from(
                sources@,
                idx as int,
                k as int,
                q,
            ) by {
                lemma_zero_bit(q);
                if merged_bit_from(sources@, idx as int, k as int, q) {
                    let (j, r) = choose|j: int, r: int|
                        k as int <= j && #[trigger] valid_sel(sources@, j, r) && q == spec_offset(
                            sources@,
                            j,
                        ) + sel_rank(sources@[j], r) && sel_bit(sources@, idx as int, j, r);
                    assert(false);
                }
            }
        }
        while i2 > 0
            invariant
                sources_wf(sources@),
                k == sources@.len(),
                lengths_match(sources@, length as nat),
                positions@.len() == k,
                positions_ok(positions@, sources@, k as int),
                all_sel_positions_distinct(sources@),
                total_flags(sources@) <= domain.spec_width() <= 64,
                i2 <= k,
                0 <= idx < length,
                base == count_from(sources@, i2 as int),
                forall|q: u64| #[trigger] bit(v, q) == merged_bit_from(
                    sources@,
                    idx as int,
                    i2 as int,
                    q,
                ),
            decreases i2,
        {
            i2 -= 1;
            let src = &sources[i2];
            let srcv = src.table.lookup(idx);
            let prow = &positions[i2];
            let c = prow.len();
            let scount = src.table.space().flag_count();
            proof {
                assert(src.table.spec_space().spec_domain().spec_width() <= 64);
                lemma_count_from_le(sources@, 0, i2 as int);
                assert(count_from(sources@, i2 as int) == c + count_from(
                    sources@,
                    i2 as int + 1,
                ));
                assert forall|r: int|
                    0 <= r < c implies source_position(sources@[i2 as int], r) >= 0 by {
                    assert(positions@[i2 as int]@[r] as int == source_position(
                        sources@[i2 as int],
                        r,
                    ));
                }
                lemma_rank_none(sources@[i2 as int], 0, c as int);
                assert forall|q: u64| #[trigger] bit(v, q) == (merged_bit_from(
                    sources@,
                    idx as int,
                    i2 as int + 1,
                    q,
                ) || partial_bit(sources@, idx as int, i2 as int, 0, q)) by {
                    if partial_bit(sources@, idx as int, i2 as int, 0, q) {
                        let r0 = choose|r0: int|
                            0 <= r0 < sources@[i2 as int].flags@.len() && source_position(
                                sources@[i2 as int],
                                r0,
                            ) < 0 && q == spec_offset(sources@, i2 as int) + sel_rank(
                                sources@[i2 as int],
                                r0,
                            ) && #[trigger] sel_bit(sources@, idx as int, i2 as int, r0);
                        assert(false);
                    }
                }
            }
            let mut p: usize = 0;
            let mut kk: u64 = 0;
            while p < scount
                invariant
                    sources_wf(sources@),
                    k == sources@.len(),
                    positions@.len() == k,
                    positions_ok(positions@, sources@, k as int),
                    all_sel_positions_distinct(sources@),
                    total_flags(sources@) <= domain.spec_width() <= 64,
                    0 <= i2 < k,
                    0 <= idx < length,
                    *src == sources@[i2 as int],
                    prow@ == positions@[i2 as int]@,
                    c == sources@[i2 as int].flags@.len(),
                    scount == sources@[i2 as int].table.spec_space().spec_count(),
                    scount <= 64,
                    srcv == sources@[i2 as int].table.spec_cells()[idx as int],
                    base == count_from(sources@, i2 as int + 1),
                    base + c == count_from(sources@, i2 as int) <= total_flags(sources@),
                    p <= scount,
                    kk == rank_below(sources@[i2 as int], p as int, c as int),
                    kk <= c,
                    forall|q: u64| #[trigger] bit(v, q) == (merged_bit_from(
                        sources@,
                        idx as int,
                        i2 as int + 1,
                        q,
                    ) || partial_bit(sources@, idx as int, i2 as int, p as int, q)),
                decreases scount - p,
            {
                let ghost s = sources@[i2 as int];
                match find_position(prow, p as u64) {
                    Some(rp) => {
                        proof {
                            assert(positions@[i2 as int]@[rp as int] as int == source_position(
                                s,
                                rp as int,
                            ));
                            assert(source_position(s, rp as int) == p as int);
                            assert forall|r2: int|
                                0 <= r2 < c && r2 != rp implies source_position(s, r2)
                                != p as int by {
                                assert(sel_positions_distinct(s));
                            }
                            lemma_rank_entry_bound(s, rp as int, c as int);
                            assert(sel_rank(s, rp as int) == kk);
                        }
                        if srcv & (1u64 << (p as u64)) != 0 {
                            let ghost prev = v;
                            v = v | (1u64 << (base + kk));
                            proof {
                                let qset = (base + kk) as u64;
                                assert(qset as int == spec_offset(sources@, i2 as int) + sel_rank(
                                    s,
                                    rp as int,
                                ));
                                assert(sel_bit(sources@, idx as int, i2 as int, rp as int));
                                assert forall|q: u64| #[trigger] bit(v, q) == (merged_bit_from(
                                    sources@,
                                    idx as int,
                                    i2 as int + 1,
                                    q,
                                ) || partial_bit(
                                    sources@,
                                    idx as int,
                                    i2 as int,
                                    p as int + 1,
                                    q,
                                )) by {
                                    lemma_or_bit(prev, mask_of(qset), q);
                                    if q < 64 {
                                        lemma_mask_bit(qset, q);
                                    }
                                    lemma_partial_step_sel(
                                        sources@,
                                        idx as int,
                                        i2 as int,
                                        p as int,
                                        rp as int,
                                        q,
                                    );
                                }
                            }
                        } else {
                            proof {
                                assert(!sel_bit(sources@, idx as int, i2 as int, rp as int));
                                assert forall|q: u64| #[trigger] bit(v, q) == (merged_bit_from(
                                    sources@,
                                    idx as int,
                                    i2 as int + 1,
                                    q,
                                ) || partial_bit(
                                    sources@,
                                    idx as int,
                                    i2 as int,
                                    p as int + 1,
                                    q,
                                )) by {
                                    lemma_partial_step_sel(
                                        sources@,
                                        idx as int,
                                        i2 as int,
                                        p as int,
                                        rp as int,
                                        q,
                                    );
                                }
                            }
                        }
                        kk = kk + 1;
                        proof {
                            lemma_rank_step(s, p as int, c as int);
                            lemma_count_eq_one(s, p as int, rp as int, c as int);
                            lemma_rank_below_le(s, p as int + 1, c as int);
                        }
                    },
                    None => {
                        proof {
                            assert forall|r2: int|
                                0 <= r2 < c implies source_position(s, r2) != p as int by {
                                assert(positions@[i2 as int]@[r2] as int == source_position(
                                    s,
                                    r2,
                                ));
                                assert(prow@[r2] != p as u64);
                            }
                            lemma_rank_step(s, p as int, c as int);
                            lemma_count_eq_zero(s, p as int, c as int);
                            assert forall|q: u64| #[trigger] bit(v, q) == (merged_bit_from(
                                sources@,
                                idx as int,
                                i2 as int + 1,
                                q,
                            ) || partial_bit(
                                sources@,
                                idx as int,
                                i2 as int,
                                p as int + 1,
                                q,
                            )) by {
                                lemma_partial_step_none(
                                    sources@,
                                    idx as int,
                                    i2 as int,
                                    p as int,
                                    q,
                                );
                            }
                        }
                    },
                }
                p += 1;
            }
            base = base + (c as u64);
            proof {
                assert forall|r: int|
                    0 <= r < c implies source_position(sources@[i2 as int], r)
                    < scount as int by {
                    assert(positions@[i2 as int]@[r] as int == source_position(
                        sources@[i2 as int],
                        r,
                    ));
                }
                assert forall|q: u64| #[trigger] bit(v, q) == merged_bit_from(
                    sources@,
                    idx as int,
                    i2 as int,
                    q,
                ) by {
                    lemma_merged_bit_unfold(sources@, idx as int, i2 as int, scount as int, q);
                }
            }
        }
        cells.push(v);
        idx += 1;
    }
    let m = Table::from_parts(space, cells);
    proof {
        assert(m.spec_len() == length);
        assert(m.spec_space().spec_count() == total_flags(sources@));
        assert forall|i1: int, r1: int| #[trigger] valid_sel(sources@, i1, r1) implies m
            .spec_space().spec_name(
            spec_offset(sources@, i1) + sel_rank(sources@[i1], r1),
        ) == sources@[i1].flags@[r1]@ by {
            lemma_sel_rank_bound(sources@[i1], r1);
            lemma_position_bound(sources@, i1, sel_rank(sources@[i1], r1));
            assert(names_view[spec_offset(sources@, i1) + sel_rank(sources@[i1], r1)]@ == sources@[
                i1
            ].flags@[r1]@);
        }
        assert forall|cc: int, q: u64|
            0 <= cc < m.spec_len() && #[trigger] bit(m.spec_cells()[cc], q) implies q
            < m.spec_space().spec_count() by {
            assert(bit(cells@[cc], q) == merged_bit_from(sources@, cc, 0, q));
            let (j, r) = choose|j: int, r: int|
                0 <= j && #[trigger] valid_sel(sources@, j, r) && q == spec_offset(sources@, j)
                    + sel_rank(sources@[j], r) && sel_bit(sources@, cc, j, r);
            lemma_sel_rank_bound(sources@[j], r);
            lemma_position_bound(sources@, j, sel_rank(sources@[j], r));
        }
        assert(m.wf());
        assert forall|i1: int, r1: int, idx1: int|
            #![trigger valid_sel(sources@, i1, r1), m.spec_cells()[idx1]]
            valid_sel(sources@, i1, r1) && 0 <= idx1 < length implies bit(
            m.spec_cells()[idx1],
            (spec_offset(sources@, i1) + sel_rank(sources@[i1], r1)) as u64,
        ) == bit(
            sources@[i1].table.spec_cells()[idx1],
            source_position(sources@[i1], r1) as u64,
        ) by {
            lemma_sel_rank_bound(sources@[i1], r1);
            lemma_position_bound(sources@, i1, sel_rank(sources@[i1], r1));
            let q = (spec_offset(sources@, i1) + sel_rank(sources@[i1], r1)) as u64;
            assert(bit(cells@[idx1], q) == merged_bit_from(sources@, idx1, 0, q));
            lemma_merged_bit_at(sources@, idx1, i1, r1);
        }
        assert(merged_from(m, domain, length as nat, sources@));
    }
    Ok(m)
}

} // verus!

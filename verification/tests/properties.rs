use lut::{
    merge, Access, All, Any, BuildError, EmptyFlag, FlagSpace, MergeSource, NoFlagsSet, Table,
    ValueDomain,
};

fn space_of(domain: ValueDomain, names: &[&str]) -> FlagSpace {
    let owned: Vec<String> = names.iter().map(|n| n.to_string()).collect();
    FlagSpace::new(domain, owned).unwrap()
}

fn names_of(names: &[&str]) -> Vec<String> {
    names.iter().map(|n| n.to_string()).collect()
}

fn tab1() -> Table {
    let space = space_of(ValueDomain::W8, &["A11", "A12"]);
    Table::new(space, 4, vec![vec![0], vec![0, 1], vec![], vec![]]).unwrap()
}

fn tab2() -> Table {
    let space = space_of(ValueDomain::W8, &["A21"]);
    Table::new(space, 4, vec![vec![0], vec![], vec![0], vec![]]).unwrap()
}

fn tab12() -> Table {
    merge(
        ValueDomain::W8,
        4,
        &vec![
            MergeSource { table: tab1(), flags: names_of(&["A11", "A12"]) },
            MergeSource { table: tab2(), flags: names_of(&["A21"]) },
        ],
    )
    .unwrap()
}

#[test]
fn too_many_flags_is_rejected() {
    let names = names_of(&["F1", "F2", "F3", "F4", "F5", "F6", "F7", "F8", "F9"]);
    let r = FlagSpace::new(ValueDomain::W8, names);
    assert_eq!(r.err(), Some(BuildError::TooManyFlags { count: 9, width: 8 }));
    let fits = FlagSpace::new(
        ValueDomain::W16,
        names_of(&["F1", "F2", "F3", "F4", "F5", "F6", "F7", "F8", "F9"]),
    );
    assert!(fits.is_ok());
}

#[test]
fn duplicate_flag_name_is_rejected() {
    let r = FlagSpace::new(ValueDomain::W8, names_of(&["A", "B", "A"]));
    assert_eq!(r.err(), Some(BuildError::DuplicateFlagName { first: 0, second: 2 }));
}

#[test]
fn cell_count_mismatch_is_rejected() {
    let space = space_of(ValueDomain::W8, &["A"]);
    let r = Table::new(space, 4, vec![vec![0], vec![], vec![0]]);
    assert_eq!(r.err(), Some(BuildError::CellCountMismatch { expected: 4, found: 3 }));
}

#[test]
fn unknown_flag_reference_is_rejected() {
    let space = space_of(ValueDomain::W8, &["A", "B"]);
    let r = Table::new(space, 2, vec![vec![1], vec![0, 5]]);
    assert_eq!(r.err(), Some(BuildError::UnknownFlag { cell: 1, entry: 1 }));
}

#[test]
fn merge_length_mismatch_is_rejected() {
    let short = Table::new(space_of(ValueDomain::W8, &["A"]), 3, vec![vec![0], vec![], vec![]])
        .unwrap();
    let r = merge(
        ValueDomain::W8,
        4,
        &vec![MergeSource { table: short, flags: names_of(&["A"]) }],
    );
    assert_eq!(r.err(), Some(BuildError::LengthMismatch { source: 0 }));
}

#[test]
fn merge_unknown_name_is_rejected() {
    let r = merge(
        ValueDomain::W8,
        4,
        &vec![MergeSource { table: tab1(), flags: names_of(&["A11", "ZZ"]) }],
    );
    assert_eq!(r.err(), Some(BuildError::NoSuchFlag { source: 0, flag: 1 }));
}

#[test]
fn merge_into_smaller_is_rejected() {
    // nine flags cannot fit an eight-bit target: a hard error, never a
    // silent aliasing of the high flags onto low bit positions
    let names = ["E1", "E2", "E3", "E4", "E5", "E6", "E7", "E8", "E9"];
    let wide = Table::new(
        space_of(ValueDomain::W16, &names),
        3,
        vec![vec![0, 1], vec![5, 6, 7, 8], vec![2, 3, 4]],
    )
    .unwrap();
    let r = merge(
        ValueDomain::W8,
        3,
        &vec![MergeSource { table: wide, flags: names_of(&names) }],
    );
    assert_eq!(r.err(), Some(BuildError::MergeOverflow { width: 8 }));

    // a two-flag subset of the same table does fit
    let wide_again = Table::new(
        space_of(ValueDomain::W16, &names),
        3,
        vec![vec![0, 1], vec![5, 6, 7, 8], vec![2, 3, 4]],
    )
    .unwrap();
    let narrowed = merge(
        ValueDomain::W8,
        3,
        &vec![MergeSource { table: wide_again, flags: names_of(&["E1", "E2"]) }],
    )
    .unwrap();
    let e1 = narrowed.flag(&"E1".to_string()).unwrap();
    let e2 = narrowed.flag(&"E2".to_string()).unwrap();
    assert_eq!(narrowed.mask(e1), 1);
    assert_eq!(narrowed.mask(e2), 2);
    assert_eq!(narrowed.lookup(0), 0b11);
    assert_eq!(narrowed.lookup(1), 0);
    assert_eq!(narrowed.lookup(2), 0);
}

#[test]
fn merge_duplicate_selection_is_rejected() {
    // the payload indexes the two clashing entries in declaration order
    let left = Table::new(space_of(ValueDomain::W8, &["X"]), 1, vec![vec![0]]).unwrap();
    let right = Table::new(space_of(ValueDomain::W8, &["X"]), 1, vec![vec![]]).unwrap();
    let r = merge(
        ValueDomain::W8,
        1,
        &vec![
            MergeSource { table: left, flags: names_of(&["X"]) },
            MergeSource { table: right, flags: names_of(&["X"]) },
        ],
    );
    assert_eq!(r.err(), Some(BuildError::DuplicateFlagName { first: 0, second: 1 }));

    // a name listed twice within one selection is the same error
    let twice = Table::new(space_of(ValueDomain::W8, &["X", "Y"]), 1, vec![vec![0]]).unwrap();
    let r = merge(
        ValueDomain::W8,
        1,
        &vec![MergeSource { table: twice, flags: names_of(&["X", "X"]) }],
    );
    assert_eq!(r.err(), Some(BuildError::DuplicateFlagName { first: 0, second: 1 }));
}

#[test]
fn merge_selection_order_is_immaterial() {
    // the merged layout follows the flags' in-source positions, not the
    // order the selection lists them in
    let data = vec![vec![0, 2], vec![1], vec![2]];
    let one = Table::new(space_of(ValueDomain::W8, &["X", "Y", "Z"]), 3, data.clone()).unwrap();
    let other = Table::new(space_of(ValueDomain::W8, &["X", "Y", "Z"]), 3, data).unwrap();
    let listed_forward = merge(
        ValueDomain::W8,
        3,
        &vec![MergeSource { table: one, flags: names_of(&["X", "Z"]) }],
    )
    .unwrap();
    let listed_backward = merge(
        ValueDomain::W8,
        3,
        &vec![MergeSource { table: other, flags: names_of(&["Z", "X"]) }],
    )
    .unwrap();
    for t in [&listed_forward, &listed_backward] {
        let x = t.flag(&"X".to_string()).unwrap();
        let z = t.flag(&"Z".to_string()).unwrap();
        assert_eq!(t.mask(x), 1);
        assert_eq!(t.mask(z), 2);
        assert_eq!(t.lookup(0), 0b11);
        assert_eq!(t.lookup(1), 0);
        assert_eq!(t.lookup(2), 0b10);
    }
}

#[test]
fn merge_subset_is_packed_low() {
    // a selection skipping low in-source positions still packs the merged
    // bits contiguously from bit zero
    let t = Table::new(
        space_of(ValueDomain::W8, &["X", "Y"]),
        2,
        vec![vec![0], vec![1]],
    )
    .unwrap();
    let merged = merge(
        ValueDomain::W8,
        2,
        &vec![MergeSource { table: t, flags: names_of(&["Y"]) }],
    )
    .unwrap();
    let y = merged.flag(&"Y".to_string()).unwrap();
    assert_eq!(merged.mask(y), 1);
    assert!(merged.flag(&"X".to_string()).is_none());
    assert_eq!(merged.lookup(0), 0);
    assert_eq!(merged.lookup(1), 1);
}

#[test]
fn masks_are_pairwise_disjoint() {
    let t = tab12();
    let a11 = t.mask(t.flag(&"A11".to_string()).unwrap());
    let a12 = t.mask(t.flag(&"A12".to_string()).unwrap());
    let a21 = t.mask(t.flag(&"A21".to_string()).unwrap());
    assert_eq!(a11 & a12, 0);
    assert_eq!(a11 & a21, 0);
    assert_eq!(a12 & a21, 0);
}

#[test]
fn check_agrees_with_lookup_and_mask() {
    let t = tab12();
    let flags = [
        t.flag(&"A11".to_string()).unwrap(),
        t.flag(&"A12".to_string()).unwrap(),
        t.flag(&"A21".to_string()).unwrap(),
    ];
    for idx in 0..t.len() {
        for f in flags.iter() {
            assert_eq!(t.check_at(idx, *f), t.lookup(idx) & t.mask(*f) != 0);
            assert_eq!(t.check_flag_at(idx, *f), t.check_at(idx, *f));
        }
    }
}

#[test]
fn all_any_check_semantics() {
    // bits 0 and 2
    let both = All::from_mask(0b101);
    let either = Any::from_mask(0b101);
    assert!(both.check(0b111));
    assert!(both.check(0b101));
    assert!(!both.check(0b100));
    assert!(!both.check(0b001));
    assert!(!both.check(0));
    assert!(either.check(0b111));
    assert!(either.check(0b100));
    assert!(either.check(0b001));
    assert!(!either.check(0b010));
    assert!(!either.check(0));
    assert!(All::empty().check(0));
    assert!(All::empty().check(0b11));
    assert!(!Any::empty().check(0));
    assert!(!Any::empty().check(0b11));
    assert_eq!(both.mask(), 0b101);
    assert_eq!(either.mask(), 0b101);
}

#[test]
fn accessor_is_its_mask() {
    // accessors with equal masks are equal, so empty is a unit of the
    // union and a mask round-trips to the same accessor
    let t = tab12();
    let a11 = t.flag(&"A11".to_string()).unwrap();
    let a21 = t.flag(&"A21".to_string()).unwrap();
    let any = Any::new(a11).or(Any::new(a21));
    assert_eq!(Any::empty().or(any), any);
    assert_eq!(Any::from_mask(any.mask()), any);
    let all = All::new(a11).and(All::new(a21));
    assert_eq!(All::empty().and(all), all);
    assert_eq!(All::from_mask(all.mask()), all);
}

#[test]
fn accessor_incremental_union() {
    let t = tab12();
    let a11 = t.flag(&"A11".to_string()).unwrap();
    let a21 = t.flag(&"A21".to_string()).unwrap();
    let mut any = Any::new(a11);
    any.or_assign(Any::new(a21));
    assert_eq!(any.mask(), t.mask(a11) | t.mask(a21));
    let mut all = All::new(a11);
    all.and_assign(All::new(a21));
    assert_eq!(all.mask(), t.mask(a11) | t.mask(a21));
}

#[test]
fn merge_preserves_membership() {
    let sources = vec![
        MergeSource { table: tab1(), flags: names_of(&["A11", "A12"]) },
        MergeSource { table: tab2(), flags: names_of(&["A21"]) },
    ];
    let merged = merge(ValueDomain::W8, 4, &sources).unwrap();
    for source in sources.iter() {
        for name in source.flags.iter() {
            let in_merged = merged.flag(name).unwrap();
            let in_source = source.table.flag(name).unwrap();
            for idx in 0..4 {
                assert_eq!(
                    merged.check_at(idx, in_merged),
                    source.table.check_at(idx, in_source)
                );
            }
        }
    }
}

#[test]
fn empty_cell_round_trip() {
    let t = tab1();
    assert_eq!(t.lookup(2), 0);
    assert!(t.check_at(2, NoFlagsSet));
    assert!(!t.check_at(0, NoFlagsSet));
    assert!(!t.check_at(2, t.flag(&"A11".to_string()).unwrap()));
    assert!(!t.check_at(2, t.flag(&"A12".to_string()).unwrap()));
}

#[test]
fn empty_flag_never_holds() {
    let t = tab1();
    for idx in 0..t.len() {
        assert!(!t.check_at(idx, EmptyFlag));
    }
    assert!(!EmptyFlag.check(0));
    assert!(!EmptyFlag.check(u64::MAX));
}

#[test]
fn bounds_checked_lookup_is_symmetric() {
    let t = tab1();
    let a11 = t.flag(&"A11".to_string()).unwrap();
    assert!(t.unbound_check_at(0, a11));
    assert!(t.unbound_check_at(1, a11));
    assert!(!t.unbound_check_at(2, a11));
    // the index equal to the length is out of range, not a read past the end
    assert!(!t.unbound_check_at(4, a11));
    assert!(!t.unbound_check_at(5, a11));
    assert!(!t.unbound_check_at(usize::MAX, a11));
}

#[test]
fn flag_lookup_by_name() {
    let t = tab1();
    let a11 = t.flag(&"A11".to_string()).unwrap();
    let a12 = t.flag(&"A12".to_string()).unwrap();
    assert_eq!(a11.position(), 0);
    assert_eq!(a12.position(), 1);
    assert_eq!(a11.mask(), 1);
    assert_eq!(a12.mask(), 2);
    assert_eq!(t.mask(a11), 1);
    assert!(t.flag(&"A13".to_string()).is_none());
    assert_eq!(t.space().flag_count(), 2);
    assert_eq!(t.space().domain(), ValueDomain::W8);
}

#[test]
fn domain_widths() {
    assert_eq!(ValueDomain::W8.width(), 8);
    assert_eq!(ValueDomain::W16.width(), 16);
    assert_eq!(ValueDomain::W32.width(), 32);
    assert_eq!(ValueDomain::W64.width(), 64);
    let mut sixty_four: Vec<String> = Vec::new();
    for i in 0..64 {
        sixty_four.push(format!("F{}", i));
    }
    assert!(FlagSpace::new(ValueDomain::W64, sixty_four.clone()).is_ok());
    sixty_four.push("F64".to_string());
    assert_eq!(
        FlagSpace::new(ValueDomain::W64, sixty_four).err(),
        Some(BuildError::TooManyFlags { count: 65, width: 64 })
    );
}

#[test]
fn zero_length_table_and_empty_merge() {
    let t = Table::new(space_of(ValueDomain::W8, &["A"]), 0, vec![]).unwrap();
    assert_eq!(t.len(), 0);
    let a = t.flag(&"A".to_string()).unwrap();
    assert!(!t.unbound_check_at(0, a));
    let merged = merge(ValueDomain::W8, 3, &Vec::new()).unwrap();
    assert_eq!(merged.len(), 3);
    assert_eq!(merged.space().flag_count(), 0);
    assert_eq!(merged.lookup(0), 0);
    assert!(merged.check_at(0, NoFlagsSet));
}

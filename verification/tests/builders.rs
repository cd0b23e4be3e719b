// Declaration shapes a table author may write: several flags per space,
// empty cells at the end of the list, single-source merges, merges of a
// selected subset, and tables with no flags at all. These tests build every
// one of those shapes through the runtime builders; each succeeds exactly
// when construction accepts the declaration.

use lut::{merge, All, Any, FlagSpace, MergeSource, Table, ValueDomain};

fn space_of(domain: ValueDomain, names: &[&str]) -> FlagSpace {
    let owned: Vec<String> = names.iter().map(|n| n.to_string()).collect();
    FlagSpace::new(domain, owned).unwrap()
}

fn names_of(names: &[&str]) -> Vec<String> {
    names.iter().map(|n| n.to_string()).collect()
}

fn three_cell_table(names: &[&str]) -> Table {
    // cells [F1, F1|F2, F2]
    Table::new(space_of(ValueDomain::W8, names), 3, vec![vec![0], vec![0, 1], vec![1]]).unwrap()
}

#[test]
fn compil_compile_only_tests() {
    // four flags, one per cell
    let wide = Table::new(
        space_of(ValueDomain::W8, &["E11", "E12", "E13", "E14"]),
        4,
        vec![vec![0], vec![0], vec![1], vec![3]],
    )
    .unwrap();
    assert_eq!(wide.len(), 4);

    // trailing empty cells
    let tab1 = Table::new(
        space_of(ValueDomain::W8, &["A11", "A12"]),
        4,
        vec![vec![0], vec![0, 1], vec![], vec![]],
    )
    .unwrap();
    let tab2 = Table::new(
        space_of(ValueDomain::W8, &["A21"]),
        4,
        vec![vec![0], vec![], vec![0], vec![]],
    )
    .unwrap();
    let tab12 = merge(
        ValueDomain::W8,
        4,
        &vec![
            MergeSource { table: tab1, flags: names_of(&["A11", "A12"]) },
            MergeSource { table: tab2, flags: names_of(&["A21"]) },
        ],
    )
    .unwrap();

    let a11 = tab12.flag(&"A11".to_string()).unwrap();
    let a12 = tab12.flag(&"A12".to_string()).unwrap();
    let a21 = tab12.flag(&"A21".to_string()).unwrap();
    let _ = All::new(a11).and(All::new(a12));
    let _ = Any::new(a11).or(Any::new(a21));

    // the same three-cell layout under different declaration shapes
    let pub_flags = three_cell_table(&["F1", "F2"]);
    let pub_table = three_cell_table(&["F1", "F2"]);
    let pubcrate_both = three_cell_table(&["F1", "F2"]);
    assert_eq!(pub_flags.len(), 3);
    assert_eq!(pub_table.len(), 3);

    // a merge reaching tables declared elsewhere
    let tab1_again = Table::new(
        space_of(ValueDomain::W8, &["A11", "A12"]),
        4,
        vec![vec![0], vec![0, 1], vec![], vec![]],
    )
    .unwrap();
    let other = Table::new(
        space_of(ValueDomain::W8, &["F1", "F2"]),
        4,
        vec![vec![0], vec![0, 1], vec![1], vec![]],
    )
    .unwrap();
    let _ = merge(
        ValueDomain::W8,
        4,
        &vec![
            MergeSource { table: tab1_again, flags: names_of(&["A11", "A12"]) },
            MergeSource { table: other, flags: names_of(&["F1", "F2"]) },
        ],
    )
    .unwrap();

    // single-source merges
    let tab1_x = Table::new(
        space_of(ValueDomain::W8, &["A11", "A12"]),
        4,
        vec![vec![0], vec![0, 1], vec![], vec![]],
    )
    .unwrap();
    let table_x = merge(
        ValueDomain::W8,
        4,
        &vec![MergeSource { table: tab1_x, flags: names_of(&["A11", "A12"]) }],
    )
    .unwrap();
    assert_eq!(table_x.len(), 4);
    let tab1_q = Table::new(
        space_of(ValueDomain::W8, &["A11", "A12"]),
        4,
        vec![vec![0], vec![0, 1], vec![], vec![]],
    )
    .unwrap();
    let _ = merge(
        ValueDomain::W8,
        4,
        &vec![MergeSource { table: tab1_q, flags: names_of(&["A11", "A12"]) }],
    )
    .unwrap();

    // a two-cell table
    let documented = Table::new(
        space_of(ValueDomain::W8, &["F1", "F2"]),
        2,
        vec![vec![0], vec![1]],
    )
    .unwrap();
    assert_eq!(documented.len(), 2);
}

#[test]
fn compile_compile_only_tests() {
    // four flags filled in a different order than they were declared
    let wide = Table::new(
        space_of(ValueDomain::W8, &["E11", "E12", "E13", "E14"]),
        4,
        vec![vec![0], vec![2], vec![1], vec![3]],
    )
    .unwrap();
    assert_eq!(wide.len(), 4);

    // a merge selecting a subset of one source's flags
    let two_flags = Table::new(
        space_of(ValueDomain::W8, &["Index0", "Index1"]),
        2,
        vec![vec![0], vec![1]],
    )
    .unwrap();
    let merged_subset = merge(
        ValueDomain::W8,
        2,
        &vec![MergeSource { table: two_flags, flags: names_of(&["Index0"]) }],
    )
    .unwrap();
    assert_eq!(merged_subset.len(), 2);
    let index0 = merged_subset.flag(&"Index0".to_string()).unwrap();
    assert_eq!(merged_subset.mask(index0), 1);
    assert!(merged_subset.flag(&"Index1".to_string()).is_none());

    // a table without flags
    let flagless = Table::new(
        space_of(ValueDomain::W8, &[]),
        2,
        vec![vec![], vec![]],
    )
    .unwrap();
    assert_eq!(flagless.lookup(0), 0);
    assert_eq!(flagless.lookup(1), 0);

    // a single zero cell beside an unused flag
    let unused_flag = Table::new(space_of(ValueDomain::W8, &["F1"]), 1, vec![vec![]]).unwrap();
    assert_eq!(unused_flag.lookup(0), 0);
}

#[test]
fn mod_visibility() {
    // every declaration shape of the inner table macro, through the builders
    let wide = Table::new(
        space_of(ValueDomain::W8, &["E11", "E12", "E13", "E14"]),
        4,
        vec![vec![0], vec![0], vec![1], vec![3]],
    )
    .unwrap();
    assert_eq!(wide.len(), 4);

    let tab1 = Table::new(
        space_of(ValueDomain::W8, &["A11", "A12"]),
        4,
        vec![vec![0], vec![0, 1], vec![], vec![]],
    )
    .unwrap();
    let tab2 = Table::new(
        space_of(ValueDomain::W8, &["A21"]),
        4,
        vec![vec![0], vec![], vec![0], vec![]],
    )
    .unwrap();
    let tab3 = Table::new(
        space_of(ValueDomain::W8, &["A31"]),
        4,
        vec![vec![0], vec![], vec![], vec![0]],
    )
    .unwrap();

    let tab12 = merge(
        ValueDomain::W8,
        4,
        &vec![
            MergeSource { table: tab1, flags: names_of(&["A11", "A12"]) },
            MergeSource { table: tab2, flags: names_of(&["A21"]) },
        ],
    )
    .unwrap();

    let tab1_again = Table::new(
        space_of(ValueDomain::W8, &["A11", "A12"]),
        4,
        vec![vec![0], vec![0, 1], vec![], vec![]],
    )
    .unwrap();
    let tab2_again = Table::new(
        space_of(ValueDomain::W8, &["A21"]),
        4,
        vec![vec![0], vec![], vec![0], vec![]],
    )
    .unwrap();
    let tab123 = merge(
        ValueDomain::W8,
        4,
        &vec![
            MergeSource { table: tab1_again, flags: names_of(&["A11", "A12"]) },
            MergeSource { table: tab2_again, flags: names_of(&["A21"]) },
            MergeSource { table: tab3, flags: names_of(&["A31"]) },
        ],
    )
    .unwrap();
    assert_eq!(tab12.len(), 4);
    assert_eq!(tab123.len(), 4);

    let a11 = tab12.flag(&"A11".to_string()).unwrap();
    let a12 = tab12.flag(&"A12".to_string()).unwrap();
    let a21 = tab12.flag(&"A21".to_string()).unwrap();
    let _ = All::new(a11).and(All::new(a12));
    let _ = Any::new(a11).or(Any::new(a21));

    let _ = three_cell_table(&["F1", "F2"]);
    let _ = three_cell_table(&["F1", "F2"]);
    let _ = three_cell_table(&["F1", "F2"]);
}

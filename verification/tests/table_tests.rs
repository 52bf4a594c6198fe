//! Gap-filling, the sentinel, and the fallback builder.

use dump_syms::fallback::symbolic_to_pdb_symbols;
use dump_syms::lines::Lines;
use dump_syms::symbol::PDBSymbol;
use dump_syms::table::{append_dummy_symbol, fill_the_gaps, PDBSymbols, RangeTable};
use std::rc::Rc;

fn sym(name: &str, id: usize, len: u32) -> PDBSymbol {
    PDBSymbol {
        name: name.to_string(),
        is_public: false,
        is_multiple: false,
        rva: 0,
        len,
        parameter_size: 0,
        source: Rc::new(Lines::new()),
        id,
    }
}

#[test]
fn same_identity_ranges_merge_into_one_span() {
    let all_syms = vec![sym("f", 7, 32)];
    let mut ranges = RangeTable::new();
    ranges.insert((100, 10), 0);
    ranges.insert((120, 5), 0);
    ranges.insert((130, 2), 0);
    let table = fill_the_gaps(&all_syms, &ranges);
    assert_eq!(table.entries.len(), 1);
    let (rva, s) = &table.entries[0];
    assert_eq!(*rva, 100);
    assert_eq!(s.rva, 100);
    assert_eq!(s.len, 32);
    assert_eq!(s.id, 7);
    assert_eq!(s.name, "f");
}

#[test]
fn distinct_identities_commit_separate_entries() {
    let all_syms = vec![sym("f", 1, 10), sym("g", 2, 15)];
    let mut ranges = RangeTable::new();
    ranges.insert((0, 10), 0);
    ranges.insert((20, 5), 1);
    ranges.insert((30, 5), 1);
    let table = fill_the_gaps(&all_syms, &ranges);
    assert_eq!(table.entries.len(), 2);
    assert_eq!(table.entries[0].0, 0);
    assert_eq!(table.entries[0].1.len, 10);
    assert_eq!(table.entries[0].1.name, "f");
    assert_eq!(table.entries[1].0, 20);
    assert_eq!(table.entries[1].1.len, 15);
    assert_eq!(table.entries[1].1.name, "g");
    // Address-ordered and non-overlapping.
    let e0 = &table.entries[0];
    let e1 = &table.entries[1];
    assert!(e0.0 < e1.0);
    assert!(e0.0 + e0.1.len <= e1.0);
}

#[test]
fn zero_length_ranges_stay_degenerate() {
    let all_syms = vec![sym("p", 1, 0), sym("q", 2, 0)];
    let mut ranges = RangeTable::new();
    ranges.insert((50, 0), 0);
    ranges.insert((60, 0), 1);
    let table = fill_the_gaps(&all_syms, &ranges);
    assert_eq!(table.entries.len(), 2);
    assert_eq!(table.entries[0].1.len, 0);
    assert_eq!(table.entries[1].1.len, 0);
}

#[test]
fn sentinel_lands_after_last_entry() {
    let mut table = PDBSymbols::new();
    table.insert(100, {
        let mut s = sym("f", 5, 20);
        s.rva = 100;
        s
    });
    let with_sentinel = append_dummy_symbol(table, "mod.dll");
    assert_eq!(with_sentinel.entries.len(), 2);
    let (rva, d) = &with_sentinel.entries[1];
    assert_eq!(*rva, 120);
    assert_eq!(d.rva, 120);
    assert_eq!(d.id, 6);
    assert_eq!(d.len, 0);
    assert!(d.is_public);
    assert_eq!(d.name, "<unknown in mod.dll>");
}

#[test]
fn sentinel_after_zero_length_entry_steps_one_past() {
    let mut table = PDBSymbols::new();
    table.insert(100, {
        let mut s = sym("p", 3, 0);
        s.rva = 100;
        s.is_public = true;
        s
    });
    let with_sentinel = append_dummy_symbol(table, "");
    assert_eq!(with_sentinel.entries.len(), 2);
    assert_eq!(with_sentinel.entries[1].0, 101);
    assert_eq!(with_sentinel.entries[1].1.name, "<unknown>");
    assert_eq!(with_sentinel.entries[1].1.id, 4);
}

#[test]
fn sentinel_on_empty_table_is_a_no_op() {
    let table = PDBSymbols::new();
    let unchanged = append_dummy_symbol(table, "mod.dll");
    assert_eq!(unchanged.entries.len(), 0);
}

#[test]
fn fallback_builds_placeholders_and_named_entries() {
    let syms = vec![(500u32, Some("_Foo@8".to_string())), (600u32, None)];
    let unwind = vec![(100u32, 110u32), (200u32, 200u32)];
    let table = symbolic_to_pdb_symbols(&syms, &unwind, "mymod");
    assert_eq!(table.entries.len(), 2);
    let (rva0, e0) = &table.entries[0];
    assert_eq!(*rva0, 100);
    assert_eq!(e0.name, "<unknown in mymod>");
    assert_eq!(e0.len, 10);
    assert!(!e0.is_public);
    let (rva1, e1) = &table.entries[1];
    assert_eq!(*rva1, 500);
    assert_eq!(e1.name, "Foo");
    assert_eq!(e1.parameter_size, 8);
    assert_eq!(e1.len, 0);
    assert!(e1.is_public);
}

#[test]
fn fallback_named_export_updates_unwind_placeholder() {
    let syms = vec![(100u32, Some("_Bar@4".to_string()))];
    let unwind = vec![(100u32, 110u32)];
    let table = symbolic_to_pdb_symbols(&syms, &unwind, "m");
    assert_eq!(table.entries.len(), 1);
    let (_, e) = &table.entries[0];
    assert_eq!(e.name, "Bar");
    assert_eq!(e.parameter_size, 4);
    assert_eq!(e.len, 10);
    assert!(!e.is_public);
}

#[test]
fn fallback_last_named_export_wins() {
    let syms = vec![
        (100u32, Some("first".to_string())),
        (100u32, Some("second".to_string())),
    ];
    let unwind: Vec<(u32, u32)> = Vec::new();
    let table = symbolic_to_pdb_symbols(&syms, &unwind, "");
    assert_eq!(table.entries.len(), 1);
    assert_eq!(table.entries[0].1.name, "second");
}

#[test]
fn translated_pairs_are_recorded_and_reversed_pairs_are_not() {
    let mut ranges = RangeTable::new();
    ranges.insert((5, 1), 9);
    ranges.record_translated(&vec![(100, 110), (120, 120), (130, 125), (200, 204)], 3);
    let keys: Vec<((u32, u32), usize)> = ranges.entries.clone();
    assert_eq!(keys, vec![((5, 1), 9), ((100, 10), 3), ((200, 4), 3)]);
}

#[test]
fn range_insert_replaces_on_equal_key() {
    let mut ranges = RangeTable::new();
    ranges.insert((100, 10), 1);
    ranges.insert((100, 10), 2);
    ranges.insert((100, 11), 3);
    assert_eq!(ranges.entries, vec![((100, 10), 2), ((100, 11), 3)]);
}

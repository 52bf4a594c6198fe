//! Candidate accumulation, collision resolution, and frame-variable sizing.

use dump_syms::lines::{Lines, SourceLine};
use dump_syms::name::FuncName;
use dump_syms::symbol::{
    resolve_display_name, stack_param_size_from_frame, BlockInfo, EBPInfo, InternalOffset,
    PDBSymbol, ProcedureRecord, PublicRecord,
};
use dump_syms::table::RvaSymbols;
use std::rc::Rc;

fn off(section: u16, offset: u32) -> InternalOffset {
    InternalOffset { section, offset }
}

fn public(name: &str, offset: InternalOffset) -> PublicRecord {
    PublicRecord {
        name: name.to_string(),
        offset,
        code: true,
        function: false,
        in_code_section: false,
    }
}

#[test]
fn frame_variables_give_stack_param_size() {
    assert_eq!(stack_param_size_from_frame(&vec![(4, 4), (8, 4)]), 8);
}

#[test]
fn frame_size_rounds_end_up_to_four() {
    // max end 9 rounds to 12, min start clamps to 4.
    assert_eq!(stack_param_size_from_frame(&vec![(4, 5)]), 8);
}

#[test]
fn frame_below_parameter_area_collapses_to_zero() {
    // max end 2 never exceeds the clamped start of 4.
    assert_eq!(stack_param_size_from_frame(&vec![(0, 2)]), 0);
    assert_eq!(stack_param_size_from_frame(&vec![]), 0);
}

#[test]
fn duplicate_publics_keep_smaller_name_and_flag_multiple() {
    let mut table = RvaSymbols::new();
    table.add_public_symbol_at(public("bbb", off(1, 0)), 1000);
    table.add_public_symbol_at(public("aaa", off(1, 4)), 1000);
    let s = table.get_symbol_at(1000).expect("entry");
    assert_eq!(s.name, "aaa");
    assert!(s.is_multiple);
    // The same outcome with arrival order reversed.
    let mut table2 = RvaSymbols::new();
    table2.add_public_symbol_at(public("aaa", off(1, 4)), 1000);
    table2.add_public_symbol_at(public("bbb", off(1, 0)), 1000);
    let s2 = table2.get_symbol_at(1000).expect("entry");
    assert_eq!(s2.name, "aaa");
    assert!(s2.is_multiple);
}

#[test]
fn public_on_procedure_donates_parameter_size() {
    let mut table = RvaSymbols::new();
    table.add_procedure_symbol(
        ProcedureRecord { name: "Foo".to_string(), type_index: 5, offset: off(1, 16) },
        BlockInfo { rva: 2000, offset: off(1, 16), len: 32 },
        0,
        Lines::new(),
    );
    table.close_procedure();
    table.add_public_symbol_at(public("_Foo@12", off(1, 16)), 2000);
    let s = table.get_symbol_at(2000).expect("entry");
    assert_eq!(s.name, "Foo");
    assert_eq!(s.parameter_size, 12);
    assert!(!s.is_public);
}

#[test]
fn public_on_untyped_procedure_adopts_name_at_same_offset() {
    let mut table = RvaSymbols::new();
    table.add_procedure_symbol(
        ProcedureRecord { name: "raw".to_string(), type_index: 0, offset: off(1, 16) },
        BlockInfo { rva: 2000, offset: off(1, 16), len: 32 },
        0,
        Lines::new(),
    );
    table.close_procedure();
    table.add_public_symbol_at(public("_exported@4", off(1, 16)), 2000);
    let s = table.get_symbol_at(2000).expect("entry");
    assert_eq!(s.name, "_exported@4");
}

#[test]
fn duplicate_procedure_scopes_only_flag_multiple() {
    let mut table = RvaSymbols::new();
    let proc = |name: &str| ProcedureRecord {
        name: name.to_string(),
        type_index: 7,
        offset: off(1, 0),
    };
    table.add_procedure_symbol(
        proc("first"),
        BlockInfo { rva: 100, offset: off(1, 0), len: 8 },
        0,
        Lines::new(),
    );
    table.close_procedure();
    table.add_procedure_symbol(
        proc("second"),
        BlockInfo { rva: 100, offset: off(1, 0), len: 8 },
        0,
        Lines::new(),
    );
    table.close_procedure();
    let s = table.get_symbol_at(100).expect("entry");
    assert_eq!(s.name, "first");
    assert!(s.is_multiple);
}

#[test]
fn frame_variables_attach_to_open_procedure_only() {
    let mut table = RvaSymbols::new();
    // No open scope: a no-op.
    table.add_ebp(EBPInfo { type_index: 1, offset: 4 });
    table.add_procedure_symbol(
        ProcedureRecord { name: "f".to_string(), type_index: 3, offset: off(1, 0) },
        BlockInfo { rva: 300, offset: off(1, 0), len: 16 },
        0,
        Lines::new(),
    );
    table.add_ebp(EBPInfo { type_index: 1, offset: 4 });
    table.add_ebp(EBPInfo { type_index: 1, offset: 8 });
    table.close_procedure();
    let s = table.get_symbol_at(300).expect("entry");
    assert_eq!(s.ebp.len(), 2);
    assert_eq!(s.ebp[1].offset, 8);
}

#[test]
fn constant_publics_are_dropped() {
    let mut table = RvaSymbols::new();
    table.add_public_symbol_at(public("??_C@_0BA@abcd", off(1, 0)), 400);
    table.add_public_symbol_at(public("__real@4048f5c3", off(1, 8)), 408);
    table.add_public_symbol_at(public("__xmm@0001", off(1, 16)), 416);
    table.add_public_symbol_at(public("__ymm@0001", off(1, 24)), 424);
    assert!(table.get_symbol_at(400).is_none());
    assert!(table.get_symbol_at(408).is_none());
    assert!(table.get_symbol_at(416).is_none());
    assert!(table.get_symbol_at(424).is_none());
}

#[test]
fn non_code_publics_are_dropped() {
    let mut table = RvaSymbols::new();
    let rec = PublicRecord {
        name: "data".to_string(),
        offset: off(2, 0),
        code: false,
        function: false,
        in_code_section: false,
    };
    table.add_public_symbol_at(rec, 500);
    assert!(table.get_symbol_at(500).is_none());
}

#[test]
fn get_from_narrows_lines_only_when_proper() {
    let sym = PDBSymbol {
        name: "f".to_string(),
        is_public: false,
        is_multiple: false,
        rva: 0,
        len: 0,
        parameter_size: 0,
        source: Rc::new(Lines {
            lines: vec![SourceLine { rva: 5, num: 1 }, SourceLine { rva: 100, num: 2 }],
        }),
        id: 3,
    };
    let narrowed = sym.get_from(0, 50);
    assert_eq!(narrowed.rva, 0);
    assert_eq!(narrowed.len, 50);
    assert_eq!(narrowed.id, 3);
    assert_eq!(narrowed.source.lines.len(), 1);
    assert_eq!(narrowed.source.lines[0].rva, 5);
    let shared = sym.get_from(0, 200);
    assert_eq!(shared.source.lines.len(), 2);
    assert!(Rc::ptr_eq(&shared.source, &sym.source));
}

#[test]
fn retain_keeps_only_lines_inside_range() {
    let lines = Lines {
        lines: vec![
            SourceLine { rva: 10, num: 1 },
            SourceLine { rva: 20, num: 2 },
            SourceLine { rva: 30, num: 3 },
        ],
    };
    let narrowed = lines.retain(15, 20).expect("proper subset");
    assert_eq!(narrowed.lines.len(), 2);
    assert_eq!(narrowed.lines[0].rva, 20);
    assert!(lines.retain(0, 100).is_none());
}

#[test]
fn formatter_outcome_decides_display_name() {
    match resolve_display_name("_Raw@8".to_string(), Some("int Foo::bar(int)".to_string())) {
        FuncName::Undecorated(n) => assert_eq!(n, "int Foo::bar(int)"),
        FuncName::Unknown(_) => panic!("expected Undecorated"),
    }
    match resolve_display_name("_Raw@8".to_string(), None) {
        FuncName::Unknown((n, s)) => {
            assert_eq!(n, "Raw");
            assert_eq!(s, 8);
        },
        FuncName::Undecorated(_) => panic!("expected Unknown"),
    }
}

//! The fallback table builder: a canonical table built directly from
//! export/unwind data when a binary ships no debug-information modules.

use crate::lines::Lines;
use crate::name::{demangle, demangle_name_of, demangle_sps_of, FuncName};
use crate::symbol::PDBSymbol;
use crate::table::{dummy_name_spec, map_get, map_has, PDBSymbols};
use std::rc::Rc;
use vstd::prelude::*;
use vstd::string::StrSliceExecFns;
use vstd::string::StringExecFns;

verus! {

/// Whether some valid (non-degenerate) unwind range begins at `rva`.
pub open spec fn unwind_has(unwind: Seq<(u32, u32)>, rva: u32) -> bool {
    exists|i: int| 0 <= i < unwind.len() && unwind[i].0 == rva && unwind[i].1 > unwind[i].0
}

/// The last named export at `rva`, whose name wins the entry there.
pub open spec fn last_named(syms: Seq<(u32, Option<String>)>, rva: u32) -> Option<Seq<char>>
    decreases syms.len(),
{
    if syms.len() == 0 {
        None
    } else if syms.last().0 == rva && syms.last().1 is Some {
        Some(syms.last().1.unwrap()@)
    } else {
        last_named(syms.drop_last(), rva)
    }
}

/// Builds a canonical table with no debug information: one placeholder entry
/// per valid unwind range, then one resolved entry per named export, updating
/// the placeholder at its address when one exists.
pub fn symbolic_to_pdb_symbols(
    syms: &Vec<(u32, Option<String>)>,
    unwind: &Vec<(u32, u32)>,
    module_name: &str,
) -> (r: PDBSymbols)
    ensures
        r.wf(),
        forall|rva: u32| #[trigger]
            map_has(r.entries@, rva) == (unwind_has(unwind@, rva) || last_named(syms@, rva)
                is Some),
        forall|rva: u32|
            last_named(syms@, rva) matches Some(nm) ==> (#[trigger] map_get(r.entries@, rva)
                matches Some(e) && {
                &&& e.name@ == demangle_name_of(nm)
                &&& e.parameter_size == demangle_sps_of(nm)
                &&& e.rva == rva
                &&& e.id == 0
                &&& e.source.lines@.len() == 0
                &&& e.is_public == !unwind_has(unwind@, rva)
                &&& !e.is_multiple
                &&& (!unwind_has(unwind@, rva) ==> e.len == 0)
                &&& (unwind_has(unwind@, rva) ==> exists|t: int|
                    0 <= t < unwind@.len() && unwind@[t].0 == rva && unwind@[t].1 - unwind@[t].0
                        == e.len)
            }),
        forall|rva: u32|
            (unwind_has(unwind@, rva) && last_named(syms@, rva) is None) ==> (#[trigger] map_get(
                r.entries@,
                rva,
            ) matches Some(e) && {
                &&& e.name@ == dummy_name_spec(module_name@)
                &&& !e.is_public
                &&& !e.is_multiple
                &&& e.parameter_size == 0
                &&& e.id == 0
                &&& e.rva == rva
                &&& e.source.lines@.len() == 0
                &&& exists|i: int|
                    0 <= i < unwind@.len() && unwind@[i].0 == rva && unwind@[i].1 - unwind@[i].0
                        == e.len
            }),
{
    let mut pdb_syms = PDBSymbols::new();
    let placeholder = if module_name.is_empty() {
        "<unknown>".to_owned()
    } else {
        String::from_str("<unknown in ").concat(module_name).concat(">")
    };
    let un = unwind.len();
    let mut i: usize = 0;
    while i < un
        invariant
            0 <= i <= un,
            un == unwind@.len(),
            placeholder@ == dummy_name_spec(module_name@),
            pdb_syms.wf(),
            forall|rva: u32| #[trigger]
                map_has(pdb_syms.entries@, rva) == unwind_has(unwind@.take(i as int), rva),
            forall|rva: u32|
                unwind_has(unwind@.take(i as int), rva) ==> (#[trigger] map_get(
                    pdb_syms.entries@,
                    rva,
                ) matches Some(e) && {
                    &&& e.name@ == dummy_name_spec(module_name@)
                    &&& !e.is_public
                    &&& !e.is_multiple
                    &&& e.parameter_size == 0
                    &&& e.id == 0
                    &&& e.rva == rva
                    &&& e.source.lines@.len() == 0
                    &&& exists|t: int|
                        0 <= t < unwind@.len() && unwind@[t].0 == rva && unwind@[t].1
                            - unwind@[t].0 == e.len
                }),
        decreases un - i,
    {
        let (begin, end) = unwind[i];
        proof {
            let t = unwind@.take(i + 1);
            assert(t.drop_last() =~= unwind@.take(i as int));
            assert(t.last() == unwind@[i as int]);
            assert(forall|k: int| 0 <= k < t.len() ==> t[k] == unwind@[k]);
            assert forall|rva: u32|
                unwind_has(t, rva) == (unwind_has(unwind@.take(i as int), rva) || (end > begin
                    && begin == rva)) by {
                if unwind_has(unwind@.take(i as int), rva) {
                    let w = choose|w: int|
                        0 <= w < i && unwind@.take(i as int)[w].0 == rva && unwind@.take(
                            i as int,
                        )[w].1 > unwind@.take(i as int)[w].0;
                    assert(t[w].0 == rva && t[w].1 > t[w].0);
                }
                if end > begin && begin == rva {
                    assert(t[i as int].0 == rva && t[i as int].1 > t[i as int].0);
                }
            }
        }
        let ghost pre = pdb_syms.entries@;
        if end > begin {
            pdb_syms.insert(
                begin,
                PDBSymbol {
                    name: placeholder.clone(),
                    is_public: false,
                    is_multiple: false,
                    rva: begin,
                    len: end - begin,
                    parameter_size: 0,
                    source: Rc::new(Lines::new()),
                    id: 0,
                },
            );
        }
        proof {
            assert forall|rva: u32| #[trigger]
                map_has(pdb_syms.entries@, rva) == unwind_has(unwind@.take(i + 1), rva) by {
                assert(map_has(pre, rva) == unwind_has(unwind@.take(i as int), rva));
                if end > begin {
                    if rva != begin {
                        assert(map_get(pdb_syms.entries@, rva) == map_get(pre, rva));
                    } else {
                        assert(map_has(pdb_syms.entries@, rva));
                    }
                } else {
                    assert(pdb_syms.entries@ == pre);
                }
            }
        }
        i += 1;
    }
    proof {
        assert(unwind@.take(un as int) =~= unwind@);
    }
    let sn = syms.len();
    let mut j: usize = 0;
    while j < sn
        invariant
            0 <= j <= sn,
            sn == syms@.len(),
            pdb_syms.wf(),
            forall|rva: u32| #[trigger]
                map_has(pdb_syms.entries@, rva) == (unwind_has(unwind@, rva) || last_named(
                    syms@.take(j as int),
                    rva,
                ) is Some),
            forall|rva: u32|
                last_named(syms@.take(j as int), rva) matches Some(nm) ==> (#[trigger] map_get(
                    pdb_syms.entries@,
                    rva,
                ) matches Some(e) && {
                    &&& e.name@ == demangle_name_of(nm)
                    &&& e.parameter_size == demangle_sps_of(nm)
                    &&& e.rva == rva
                    &&& e.id == 0
                    &&& e.source.lines@.len() == 0
                    &&& e.is_public == !unwind_has(unwind@, rva)
                    &&& !e.is_multiple
                    &&& (!unwind_has(unwind@, rva) ==> e.len == 0)
                    &&& (unwind_has(unwind@, rva) ==> exists|t: int|
                        0 <= t < unwind@.len() && unwind@[t].0 == rva && unwind@[t].1
                            - unwind@[t].0 == e.len)
                }),
            forall|rva: u32|
                (unwind_has(unwind@, rva) && last_named(syms@.take(j as int), rva) is None) ==> (
                #[trigger] map_get(pdb_syms.entries@, rva) matches Some(e) && {
                    &&& e.name@ == dummy_name_spec(module_name@)
                    &&& !e.is_public
                    &&& !e.is_multiple
                    &&& e.parameter_size == 0
                    &&& e.id == 0
                    &&& e.rva == rva
                    &&& e.source.lines@.len() == 0
                    &&& exists|t: int|
                        0 <= t < unwind@.len() && unwind@[t].0 == rva && unwind@[t].1
                            - unwind@[t].0 == e.len
                }),
        decreases sn - j,
    {
        let entry = &syms[j];
        let rva = entry.0;
        let ghost pre = pdb_syms.entries@;
        proof {
            let t = syms@.take(j + 1);
            assert(t.drop_last() =~= syms@.take(j as int));
            assert(t.last() == syms@[j as int]);
        }
        match &entry.1 {
            Some(name) => {
                let resolved = demangle(name.as_str());
                let (new_name, parameter_size) = match resolved {
                    FuncName::Undecorated(n) => (n, 0u32),
                    FuncName::Unknown((n, p)) => (n, p),
                };
                let updated = match pdb_syms.get(rva) {
                    Some(e) => PDBSymbol {
                        name: new_name,
                        is_public: e.is_public,
                        is_multiple: e.is_multiple,
                        rva: e.rva,
                        len: e.len,
                        parameter_size,
                        source: Rc::clone(&e.source),
                        id: e.id,
                    },
                    None => PDBSymbol {
                        name: new_name,
                        is_public: true,
                        is_multiple: false,
                        rva,
                        len: 0,
                        parameter_size,
                        source: Rc::new(Lines::new()),
                        id: 0,
                    },
                };
                pdb_syms.insert(rva, updated);
            },
            None => {},
        }
        proof {
            let t = syms@.take(j + 1);
            assert forall|k: u32| #[trigger]
                map_has(pdb_syms.entries@, k) == (unwind_has(unwind@, k) || last_named(t, k)
                    is Some) by {
                assert(map_has(pre, k) == (unwind_has(unwind@, k) || last_named(
                    syms@.take(j as int),
                    k,
                ) is Some));
                if t.last().0 == k && t.last().1 is Some {
                    assert(map_has(pdb_syms.entries@, k));
                } else {
                    assert(last_named(t, k) == last_named(syms@.take(j as int), k));
                    if k != rva {
                        assert(map_get(pdb_syms.entries@, k) == map_get(pre, k));
                    }
                }
            }
        }
        j += 1;
    }
    proof {
        assert(syms@.take(sn as int) =~= syms@);
    }
    pdb_syms
}

} // verus!

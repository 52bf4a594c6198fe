//! Trusted bindings to the external address-translation and type-formatting
//! services: the PDB address map and the type-information formatter.

use crate::symbol::InternalOffset;
use pdb::AddressMap;
use pdb::PdbInternalRva;
use pdb::PdbInternalSectionOffset;
use pdb_addr2line::TypeFormatter;
use vstd::prelude::*;

verus! {

/// The external address map translating debug-format-internal locations to
/// linear addresses (`pdb::AddressMap`). Opaque to the library's logic.
#[verifier::external_type_specification]
#[verifier::external_body]
pub struct ExAddressMap<'s>(AddressMap<'s>);

/// The external type-information formatter (`pdb_addr2line::TypeFormatter`).
/// Opaque to the library's logic.
#[verifier::external_type_specification]
#[verifier::external_body]
pub struct ExTypeFormatter<'a, 's>(TypeFormatter<'a, 's>);

/// Relies on pdb::PdbInternalSectionOffset::to_rva: translates a section/offset
/// location through the address map, or nothing when the location lies outside
/// the mapped sections.
#[verifier::external_body]
pub(crate) fn offset_to_rva(map: &AddressMap, off: InternalOffset) -> Option<u32> {
    PdbInternalSectionOffset { section: off.section, offset: off.offset }.to_rva(map).map(|r| r.0)
}

/// Relies on pdb::PdbInternalSectionOffset::to_internal_rva: resolves the
/// location to the PDB-internal linear address space, or nothing when it lies
/// outside the mapped sections.
#[verifier::external_body]
pub(crate) fn offset_to_internal_rva(map: &AddressMap, off: InternalOffset) -> Option<u32> {
    PdbInternalSectionOffset { section: off.section, offset: off.offset }.to_internal_rva(
        map,
    ).map(|r| r.0)
}

/// Relies on pdb::AddressMap::rva_ranges: the (start, end) address pairs that a
/// PDB-internal address range occupies in the executable's address space; empty
/// and eliminated ranges are skipped, so the result may be empty.
#[verifier::external_body]
pub(crate) fn rva_ranges(map: &AddressMap, start: u32, end: u32) -> Vec<(u32, u32)> {
    map.rva_ranges(PdbInternalRva(start)..PdbInternalRva(end)).map(
        |r| (r.start.0, r.end.0),
    ).collect()
}

/// Relies on pdb_addr2line::TypeFormatter::format_function: renders the full
/// signature for a procedure name under the module's type information, or
/// nothing when formatting fails.
#[verifier::external_body]
pub(crate) fn format_function(
    f: &TypeFormatter,
    name: &str,
    module_index: usize,
    type_index: u32,
) -> Option<String> {
    f.format_function(name, module_index, pdb_addr2line::pdb::TypeIndex(type_index)).ok()
}

/// Relies on pdb_addr2line::TypeFormatter::get_type_size: the byte size of the
/// type at the given index, truncated to 32 bits.
#[verifier::external_body]
pub(crate) fn type_size(f: &TypeFormatter, module_index: usize, type_index: u32) -> u32 {
    f.get_type_size(module_index, pdb_addr2line::pdb::TypeIndex(type_index)) as u32
}

} // verus!

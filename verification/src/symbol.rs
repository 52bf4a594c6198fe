//! Candidate and finalized symbols.
//!
//! A candidate symbol accumulates everything known about one address while a
//! module's debug records stream in; finalization resolves its display name and
//! stack-parameter size and freezes it into an immutable record.

use crate::lines::{retain_model, Lines};
use crate::name::{
    demangle, demangle_is_known, demangle_name_of, demangle_sps_of, heuristic_result, lex_lt,
    str_lt, FuncName,
};
use crate::translate::{format_function, type_size};
use pdb_addr2line::TypeFormatter;
use std::rc::Rc;
use vstd::prelude::*;

verus! {

/// A debug-format-internal location: a section index and a byte offset in it.
#[derive(Clone, Copy, PartialEq, Eq, Structural)]
pub struct InternalOffset {
    /// The section index.
    pub section: u16,
    /// The byte offset inside the section.
    pub offset: u32,
}

/// What the logic reads from a procedure-scope debug record.
pub struct ProcedureRecord {
    /// The raw decorated name.
    pub name: String,
    /// Handle into the external type system; zero means no type information.
    pub type_index: u32,
    /// The procedure's own recorded location.
    pub offset: InternalOffset,
}

/// What the logic reads from an exported-symbol debug record.
pub struct PublicRecord {
    /// The raw decorated name.
    pub name: String,
    /// The symbol's recorded location.
    pub offset: InternalOffset,
    /// The record's own code flag.
    pub code: bool,
    /// The record's own function flag.
    pub function: bool,
    /// Whether the enclosing section holds code, per the section headers and
    /// the module contributions.
    pub in_code_section: bool,
}

/// A frame-relative variable: its offset from the frame pointer and its type.
#[derive(Clone, Copy, PartialEq, Eq, Structural)]
pub struct EBPInfo {
    /// Handle into the external type system.
    pub type_index: u32,
    /// Offset from the frame pointer, in bytes.
    pub offset: u32,
}

/// The address range one procedure scope covers.
pub struct BlockInfo {
    /// The scope's linear address.
    pub rva: u32,
    /// The scope's internal location.
    pub offset: InternalOffset,
    /// The scope's byte length.
    pub len: u32,
}

/// A mutable, in-progress record for one address during accumulation.
pub struct SelectedSymbol {
    /// Raw or partially-resolved identifier.
    pub name: String,
    /// Handle into the external type system; zero means no type information.
    pub type_index: u32,
    /// Provenance tag for type lookups; public symbols have none.
    pub module_index: Option<usize>,
    /// Whether the symbol came from an exported-symbol record.
    pub is_public: bool,
    /// Whether more than one raw record mapped to this identity.
    pub is_multiple: bool,
    /// The symbol's internal location.
    pub offset: InternalOffset,
    /// The procedure record's own location, when one was seen.
    pub sym_offset: Option<InternalOffset>,
    /// Byte span of the logical function; zero when unknown.
    pub len: u32,
    /// Byte count of the calling-convention-visible parameter area.
    pub parameter_size: u32,
    /// Attached line-number annotations.
    pub source: Lines,
    /// Frame-relative variables seen inside the procedure scope.
    pub ebp: Vec<EBPInfo>,
    /// Table-local identity, strictly increasing per accumulating table.
    pub id: usize,
}

/// An immutable finalized symbol, keyed by linear address in the canonical table.
pub struct PDBSymbol {
    /// The resolved display name.
    pub name: String,
    /// Whether the symbol came from an exported-symbol record.
    pub is_public: bool,
    /// Whether more than one raw record collapsed into this entry.
    pub is_multiple: bool,
    /// The linear address.
    pub rva: u32,
    /// The byte length; zero for public-only symbols.
    pub len: u32,
    /// Byte count of the stack-passed parameter area.
    pub parameter_size: u32,
    /// The line table, shared read-only across ranges split from one symbol.
    pub source: Rc<Lines>,
    /// The identity the symbol carried in its accumulating table.
    pub id: usize,
}

impl PDBSymbol {
    /// Re-emits this symbol for one address range. The line table is shared
    /// unchanged unless the range properly narrows it, in which case a fresh
    /// narrowed copy is allocated.
    pub fn get_from(&self, rva: u32, len: u32) -> (r: PDBSymbol)
        ensures
            r.name@ == self.name@,
            r.is_public == self.is_public,
            r.is_multiple == self.is_multiple,
            r.rva == rva,
            r.len == len,
            r.parameter_size == self.parameter_size,
            r.id == self.id,
            r.source.lines@ == retain_model(self.source.lines@, rva, len),
    {
        let source = match self.source.retain(rva, len) {
            Some(narrowed) => Rc::new(narrowed),
            None => Rc::clone(&self.source),
        };
        PDBSymbol {
            name: self.name.clone(),
            is_public: self.is_public,
            is_multiple: self.is_multiple,
            rva,
            len,
            parameter_size: self.parameter_size,
            source,
            id: self.id,
        }
    }
}

/// The smallest frame-variable start offset, over `(offset, size)` pairs.
pub open spec fn min_frame_start(s: Seq<(u32, u32)>) -> int
    decreases s.len(),
{
    if s.len() == 0 {
        u32::MAX as int
    } else {
        let m = min_frame_start(s.drop_last());
        if (s.last().0 as int) < m {
            s.last().0 as int
        } else {
            m
        }
    }
}

/// The largest frame-variable end offset (start plus type size).
pub open spec fn max_frame_end(s: Seq<(u32, u32)>) -> int
    decreases s.len(),
{
    if s.len() == 0 {
        0
    } else {
        let m = max_frame_end(s.drop_last());
        if s.last().0 + s.last().1 > m {
            s.last().0 + s.last().1
        } else {
            m
        }
    }
}

/// The stack-parameter byte count inferred from frame variables: the spread
/// from the smallest start offset (floored at 4, since smaller offsets lie
/// below the parameter area) to the largest end offset rounded up to the next
/// multiple of 4; non-positive spreads collapse to zero.
pub open spec fn stack_size_spec(s: Seq<(u32, u32)>) -> u32 {
    let lo = if min_frame_start(s) > 4 {
        min_frame_start(s)
    } else {
        4
    };
    let hi = max_frame_end(s);
    if lo < hi {
        ((hi + 3) / 4 * 4 - lo) as u32
    } else {
        0u32
    }
}

/// Computes the stack-parameter byte count from frame variables, given as
/// `(start offset, type byte size)` pairs.
pub fn stack_param_size_from_frame(entries: &Vec<(u32, u32)>) -> (r: u32)
    requires
        forall|i: int| 0 <= i < entries@.len() ==> entries@[i].0 + entries@[i].1 <= 0xFFFF_FFFC,
    ensures
        r == stack_size_spec(entries@),
{
    let n = entries.len();
    let mut min_s: u32 = u32::MAX;
    let mut max_e: u32 = 0;
    let mut i: usize = 0;
    while i < n
        invariant
            0 <= i <= n,
            n == entries@.len(),
            forall|k: int| 0 <= k < n ==> entries@[k].0 + entries@[k].1 <= 0xFFFF_FFFC,
            min_s as int == min_frame_start(entries@.take(i as int)),
            max_e as int == max_frame_end(entries@.take(i as int)),
            max_e <= 0xFFFF_FFFC,
        decreases n - i,
    {
        let (off, size) = entries[i];
        proof {
            let t = entries@.take(i + 1);
            assert(t.drop_last() =~= entries@.take(i as int));
            assert(t.last() == entries@[i as int]);
        }
        if off < min_s {
            min_s = off;
        }
        if off + size > max_e {
            max_e = off + size;
        }
        i += 1;
    }
    proof {
        assert(entries@.take(n as int) =~= entries@);
    }
    let lo: u32 = if min_s > 4 {
        min_s
    } else {
        4
    };
    if lo < max_e {
        (max_e + 3) / 4 * 4 - lo
    } else {
        0
    }
}

/// How merging an exported-symbol record named `name` at location `off` into
/// the candidate `prev` yields the candidate `e`.
///
/// Between two public records the lexicographically smaller name wins and the
/// collision is flagged. On a procedure candidate, the exported name is adopted
/// when the candidate has no type information and the locations agree exactly,
/// and the exported name's heuristic parameter-size hint is adopted when its
/// name matches the candidate's.
pub open spec fn pub_merge_ok(
    prev: SelectedSymbol,
    name: Seq<char>,
    off: InternalOffset,
    e: SelectedSymbol,
) -> bool {
    let unchanged = e.type_index == prev.type_index && e.len == prev.len && e.id == prev.id
        && e.sym_offset == prev.sym_offset && e.module_index == prev.module_index
        && e.source.lines@ == prev.source.lines@ && e.ebp@ == prev.ebp@;
    if prev.is_public {
        let lt = lex_lt(name, prev.name@);
        &&& e.is_public
        &&& e.is_multiple
        &&& e.name@ == (if lt {
            name
        } else {
            prev.name@
        })
        &&& e.offset == (if lt {
            off
        } else {
            prev.offset
        })
        &&& e.parameter_size == prev.parameter_size
        &&& unchanged
    } else {
        let adopt = prev.type_index == 0 && prev.sym_offset == Some(off);
        let nm = if adopt {
            name
        } else {
            prev.name@
        };
        let h = heuristic_result(name);
        &&& e.name@ == nm
        &&& e.parameter_size == (if h.0 == nm || name == nm {
            h.1
        } else {
            prev.parameter_size
        })
        &&& e.is_public == prev.is_public
        &&& e.is_multiple == prev.is_multiple
        &&& e.offset == prev.offset
        &&& unchanged
    }
}

/// Chooses a display name from the external formatter's outcome: a rendered
/// signature wins as-is; on formatting failure the raw name falls back to the
/// heuristic resolver.
pub fn resolve_display_name(raw: String, formatted: Option<String>) -> (r: FuncName)
    ensures
        formatted matches Some(f) ==> (r matches FuncName::Undecorated(n) && n@ == f@),
        formatted is None ==> (r matches FuncName::Unknown(p) && p.0@ == heuristic_result(
            raw@,
        ).0 && p.1 == heuristic_result(raw@).1),
{
    match formatted {
        Some(function) => FuncName::Undecorated(function),
        None => FuncName::get_unknown(raw),
    }
}

impl SelectedSymbol {
    /// Resolves the display name: an empty name yields the placeholder, a
    /// candidate with no type information goes through the demangler, and
    /// otherwise the external formatter renders the signature, falling back to
    /// the heuristic resolver when formatting fails.
    fn get_und(&self, formatter: &TypeFormatter) -> (r: FuncName)
        ensures
            self.name@.len() == 0 ==> (r matches FuncName::Undecorated(n) && n@
                == "<name omitted>"@),
            self.name@.len() > 0 && self.type_index == 0 ==> {
                &&& (r is Undecorated) == demangle_is_known(self.name@)
                &&& (r matches FuncName::Undecorated(n) ==> n@ == demangle_name_of(self.name@))
                &&& (r matches FuncName::Unknown(p) ==> p.0@ == demangle_name_of(self.name@)
                    && p.1 == demangle_sps_of(self.name@))
            },
            self.name@.len() > 0 && self.type_index != 0 ==> (r matches FuncName::Unknown(p)
                ==> p.0@ == heuristic_result(self.name@).0 && p.1 == heuristic_result(
                self.name@,
            ).1),
    {
        if self.name.as_str().is_empty() {
            FuncName::Undecorated("<name omitted>".to_owned())
        } else if self.type_index == 0 {
            demangle(self.name.as_str())
        } else {
            let module_index = match self.module_index {
                Some(m) => m,
                None => 0,
            };
            let formatted = format_function(
                formatter,
                self.name.as_str(),
                module_index,
                self.type_index,
            );
            resolve_display_name(self.name.clone(), formatted)
        }
    }

    /// Resolves the stack-parameter size from the recorded frame variables,
    /// looking each variable's type size up in the external formatter; with no
    /// frame variables the previously known value stands. Frame data whose
    /// offsets would overflow the address space is treated as missing.
    fn get_stack_param_size(&mut self, formatter: &TypeFormatter) -> (r: u32)
        ensures
            old(self).ebp@.len() == 0 ==> r == old(self).parameter_size,
            final(self).parameter_size == r,
            final(self).ebp@.len() == 0,
            final(self).name@ == old(self).name@,
            final(self).type_index == old(self).type_index,
            final(self).module_index == old(self).module_index,
            final(self).is_public == old(self).is_public,
            final(self).is_multiple == old(self).is_multiple,
            final(self).offset == old(self).offset,
            final(self).sym_offset == old(self).sym_offset,
            final(self).len == old(self).len,
            final(self).source.lines@ == old(self).source.lines@,
            final(self).id == old(self).id,
    {
        if self.ebp.len() == 0 {
            return self.parameter_size;
        }
        let module_index = match self.module_index {
            Some(m) => m,
            None => 0,
        };
        let n = self.ebp.len();
        let mut entries: Vec<(u32, u32)> = Vec::new();
        let mut usable = true;
        let mut i: usize = 0;
        while i < n
            invariant
                0 <= i <= n,
                n == self.ebp@.len(),
                usable ==> forall|k: int| 0 <= k < entries@.len() ==> entries@[k].0
                    + entries@[k].1 <= 0xFFFF_FFFC,
            decreases n - i,
        {
            let info = self.ebp[i];
            let size = type_size(formatter, module_index, info.type_index);
            if size <= 0xFFFF_FFFCu32 && info.offset <= 0xFFFF_FFFCu32 - size {
                entries.push((info.offset, size));
            } else {
                usable = false;
            }
            i += 1;
        }
        self.ebp = Vec::new();
        if !usable {
            return self.parameter_size;
        }
        let sps = stack_param_size_from_frame(&entries);
        self.parameter_size = sps;
        sps
    }

    /// Merges a second exported-symbol record arriving at this symbol's address.
    ///
    /// Between two public records the lexicographically smaller name wins and
    /// the collision is flagged; a public record landing on a procedure symbol
    /// donates its name when the procedure has no type information and the
    /// locations agree, and donates its parameter-size hint when its heuristic
    /// name matches the procedure's.
    pub fn update_public(&mut self, symbol: PublicRecord)
        ensures
            pub_merge_ok(*old(self), symbol.name@, symbol.offset, *final(self)),
    {
        if self.is_public {
            self.is_multiple = true;
            if str_lt(symbol.name.as_str(), self.name.as_str()) {
                self.name = symbol.name;
                self.offset = symbol.offset;
            }
        } else {
            let off = symbol.offset;
            let fun_name = symbol.name;
            if self.type_index == 0 {
                // No type information: take the exported name when the locations
                // agree exactly.
                if let Some(so) = self.sym_offset {
                    if so == off {
                        self.name = fun_name.clone();
                    }
                }
            }
            // The exported name may carry a parameter-size suffix.
            match FuncName::get_unknown(fun_name.clone()) {
                FuncName::Unknown((n, sps)) => {
                    if n.eq(&self.name) || fun_name.eq(&self.name) {
                        self.parameter_size = sps;
                    }
                },
                FuncName::Undecorated(_) => {},
            }
        }
    }

    /// Finalizes this candidate into an immutable symbol, resolving its display
    /// name and stack-parameter size; the internal location is handed back
    /// separately for range splitting.
    pub fn mv_to_pdb_symbol(self, formatter: &TypeFormatter) -> (r: (PDBSymbol, InternalOffset))
        ensures
            r.0.is_public == self.is_public,
            r.0.is_multiple == self.is_multiple,
            r.0.len == self.len,
            r.0.id == self.id,
            r.0.rva == 0,
            r.1 == self.offset,
            r.0.source.lines@ == self.source.lines@,
            self.name@.len() == 0 ==> r.0.name@ == "<name omitted>"@,
            self.name@.len() == 0 && self.ebp@.len() == 0 ==> r.0.parameter_size
                == self.parameter_size,
            self.name@.len() > 0 && self.type_index == 0 ==> {
                &&& r.0.name@ == demangle_name_of(self.name@)
                &&& (!demangle_is_known(self.name@) ==> r.0.parameter_size == demangle_sps_of(
                    self.name@,
                ))
                &&& (demangle_is_known(self.name@) && self.ebp@.len() == 0
                    ==> r.0.parameter_size == self.parameter_size)
            },
    {
        let mut sym = self;
        let resolved = sym.get_und(formatter);
        let (name, stack_param_size) = match resolved {
            FuncName::Undecorated(n) => {
                let sps = sym.get_stack_param_size(formatter);
                (n, sps)
            },
            FuncName::Unknown((n, sps)) => (n, sps),
        };
        let offset = sym.offset;
        (
            PDBSymbol {
                name,
                is_public: sym.is_public,
                is_multiple: sym.is_multiple,
                rva: 0,
                len: sym.len,
                parameter_size: stack_param_size,
                source: Rc::new(sym.source),
                id: sym.id,
            },
            offset,
        )
    }
}

} // verus!

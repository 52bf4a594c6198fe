//! Source-line annotations attached to a symbol.
//!
//! Once a symbol is finalized its line table is shared read-only; a copy is
//! materialized only when a narrower address range actually drops lines.

use vstd::prelude::*;

verus! {

/// One line-number annotation at a linear address.
#[derive(Clone, Copy, PartialEq, Eq, Structural)]
pub struct SourceLine {
    /// The linear address the annotation is attached to.
    pub rva: u32,
    /// The source line number.
    pub num: u32,
}

/// Whether a line lies inside the half-open range starting at `rva` of length `len`.
pub open spec fn line_in_range(l: SourceLine, rva: u32, len: u32) -> bool {
    rva <= l.rva && l.rva < rva + len
}

/// The lines of `s` that lie inside the given range, in order.
pub open spec fn kept_lines(s: Seq<SourceLine>, rva: u32, len: u32) -> Seq<SourceLine>
    decreases s.len(),
{
    if s.len() == 0 {
        Seq::empty()
    } else {
        kept_lines(s.drop_last(), rva, len) + (if line_in_range(s.last(), rva, len) {
            seq![s.last()]
        } else {
            Seq::<SourceLine>::empty()
        })
    }
}

/// The line table a range narrowed to `rva..rva+len` ends up with: a proper
/// narrowing materializes the kept subset; otherwise the original is shared.
pub open spec fn retain_model(s: Seq<SourceLine>, rva: u32, len: u32) -> Seq<SourceLine> {
    if forall|i: int| 0 <= i < s.len() ==> line_in_range(s[i], rva, len) {
        s
    } else {
        kept_lines(s, rva, len)
    }
}

/// An ordered collection of line-number annotations.
pub struct Lines {
    /// The annotations, in increasing address order as collected.
    pub lines: Vec<SourceLine>,
}

impl Lines {
    /// An empty line table.
    pub fn new() -> (r: Lines)
        ensures
            r.lines@ =~= Seq::<SourceLine>::empty(),
    {
        Lines { lines: Vec::new() }
    }

    /// Copy-on-narrow: the sub-table of lines inside the given range when that
    /// subset is proper, and nothing when every line already lies inside, so the
    /// caller keeps sharing the original table.
    pub fn retain(&self, rva: u32, len: u32) -> (r: Option<Lines>)
        ensures
            (r is None) == (forall|i: int|
                0 <= i < self.lines@.len() ==> line_in_range(self.lines@[i], rva, len)),
            r matches Some(l) ==> l.lines@ == kept_lines(self.lines@, rva, len),
    {
        let n = self.lines.len();
        let mut out: Vec<SourceLine> = Vec::new();
        let mut any_out = false;
        let mut i: usize = 0;
        while i < n
            invariant
                0 <= i <= n,
                n == self.lines@.len(),
                out@ == kept_lines(self.lines@.take(i as int), rva, len),
                any_out == !(forall|j: int|
                    0 <= j < i ==> line_in_range(self.lines@[j], rva, len)),
            decreases n - i,
        {
            let l = self.lines[i];
            let inside = l.rva >= rva && l.rva - rva < len;
            proof {
                assert(inside == line_in_range(self.lines@[i as int], rva, len));
                let t = self.lines@.take(i + 1);
                assert(t.drop_last() =~= self.lines@.take(i as int));
                assert(t.last() == self.lines@[i as int]);
            }
            if inside {
                out.push(l);
                proof {
                    assert(out@ =~= kept_lines(self.lines@.take(i + 1), rva, len));
                }
            } else {
                any_out = true;
                proof {
                    assert(out@ =~= kept_lines(self.lines@.take(i + 1), rva, len));
                }
            }
            i += 1;
        }
        proof {
            assert(self.lines@.take(n as int) =~= self.lines@);
        }
        if any_out {
            Some(Lines { lines: out })
        } else {
            None
        }
    }
}

} // verus!

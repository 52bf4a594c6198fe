//! Reconciliation of raw, overlapping debug-symbol records into one canonical,
//! address-ordered symbol table, in the style of Breakpad symbol files.

pub mod fallback;
pub mod lines;
pub mod symbol;
pub mod table;
pub mod translate;
pub mod name;

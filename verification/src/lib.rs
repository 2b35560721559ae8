//! A key-value table that keeps a sorted prefix of entries plus a small
//! unsorted suffix, folding the suffix into the prefix once it outgrows a
//! threshold recomputed from the table's total size.

pub mod order;
pub mod table;
pub mod threshold;

pub use table::Psst;

//! A structural index for JSON records: per-character bitmaps over 32-byte lanes,
//! masked for string interiors and split by object nesting depth, from which the
//! byte offsets of the colons at a chosen level are read off.
pub mod bitwise;
pub mod bitmaps;
pub mod record;
pub mod laws;
pub mod scalar;

pub use bitmaps::{LeveledColons, LiteralChars, StringMask, StructuralChars};
pub use record::{Field, FieldSet, Query, Record};

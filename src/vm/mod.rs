//! Component-level descriptions of lexers.
pub mod instruction;

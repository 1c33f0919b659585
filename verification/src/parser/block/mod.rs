//! Block-level parsing rules.
pub mod builtin;

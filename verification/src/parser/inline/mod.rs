//! Inline-level parsing rules.
pub mod builtin;

//! The syntax plugins: CommonMark inline constructs, the extensions, and raw
//! HTML.
pub mod cmark;
pub mod extra;
pub mod html;

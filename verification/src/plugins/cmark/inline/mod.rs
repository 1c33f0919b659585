//! CommonMark inline constructs.
pub mod backticks;
pub mod emphasis;
pub mod escape;
pub mod image;
pub mod newline;

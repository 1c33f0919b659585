//! CommonMark constructs.
pub mod inline;

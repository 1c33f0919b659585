//! Supramark Markdown: the scanners, matchers and AST helpers of a
//! CommonMark/GFM parser, with their behaviour stated as Verus contracts.
use vstd::prelude::*;

pub mod text;
pub mod pattern;
pub mod parser;
pub mod plugins;
pub mod supramark;
pub mod layout;

pub use supramark::model::{DiagnosticSeverity, ExtensionMode, ParseOptions, ParserInfo, TableAlign};
pub use supramark::offsets::{SourcePoint, SourcePosition};

verus! {

} // verus!

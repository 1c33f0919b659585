//! The document model around the parser: source positions, the scans over
//! text values that recognise inline math, footnote references, emoji
//! shortcodes and task markers, the passes over node lists (split footnote
//! references, adjacent text runs, footnote numbering, raw HTML), extension
//! blocks with their openers, metadata and bodies (JSON, weather settings,
//! map settings), and the options that configure the parser.
pub mod offsets;
pub mod inline_ext;
pub mod emoji;
pub mod extension;
pub mod model;
pub mod footnote;
pub mod task;
pub mod setup;
pub mod node;
pub mod inline_text;
pub mod reassemble;
pub mod diagram_meta;
pub mod weather;
pub mod extension_node;
pub mod container_data;
pub mod map_data;

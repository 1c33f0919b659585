//! Extensions beyond the CommonMark core: GFM strikethrough and autolinks,
//! block math, footnote definitions, wiki links, and the `:::`/`%%%`
//! extension blocks.
pub mod ext;
pub mod footnote;
pub mod gfm_autolink;
pub mod math;
pub mod strikethrough;
pub mod wikilink;

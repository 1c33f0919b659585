# supramark_markdown

A Markdown front end for the Supramark document model, verified with Verus.

The library (`src/`) holds the parts of the parser that decide things:

- `parser/` — the rule chains of the Markdown parser and the registration
  of rules (`add_rule`, `before` / `after` placement, `remove_rule`).
- `plugins/` — the inline and block rules: code spans, emphasis, escapes,
  images (with URL sanitising), line breaks, raw HTML, inline and block
  math, extension blocks, footnote definitions, strikethrough, GFM bare
  autolinks and wiki links.
- `supramark/` — the document model and the passes over it: source
  positions (line, column, byte and UTF-16 offsets), the scan for inline
  math and footnote references in text, footnote references cut apart by
  raw HTML, the rescanning of adjacent text runs, emoji shortcodes, task
  list markers, footnote numbering, raw HTML sanitising, diagnostics,
  extension blocks and their metadata, the bodies of vison, weather and
  map blocks (JSON read through `serde_json`, key-value settings, map
  settings), and the parse options.
- `layout/` — the text helpers and the draw-order rules of the activity
  diagram layout.
- `pattern.rs`, `text.rs` — regular expressions (through the `regex`
  crate) and UTF-8 helpers.

Each public function states its result in its `ensures`; the laws of the
library (what a pass preserves, what two calls have in common) are public
proof functions next to the functions they speak of.

`app/` holds what the verifier does not see: the serde forms of the model
types, the assembly of the JSON data of extension blocks from what the
library parses, and the parsing of decimal numbers, which needs floating
point. `tests/` exercises the library on concrete inputs.

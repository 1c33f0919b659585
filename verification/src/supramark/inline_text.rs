//! Text values into document nodes: the inline math spans and footnote
//! references inside a text value become nodes of their own, and the text
//! around them keeps its emoji shortcodes replaced.
use vstd::prelude::*;
use vstd::utf8::*;
use vstd::string::StringSliceAdditionalSpecFns;
use crate::supramark::emoji::{replace_emoji_shortcodes, spec_replace_emoji_shortcodes};
use crate::supramark::footnote::{collapse_white_space, normalize_footnote_identifier, unicode_lowercase};
use crate::supramark::inline_ext::{
    find_next_inline_extension, has_byte, has_caret_open, inline_extension_scan_needed, lemma_inline_extension_sound, next_extension_from, InlineExtensionKind,
};
use crate::supramark::node::SupramarkNode;
use crate::supramark::offsets::{position_from_abs, spans_len, spec_point_at, AstV2Ctx, OffsetIndex, SourcePosition};
use crate::text::{chars_of, decoded, push_chars, string_of_ascii_cut};

verus! {

broadcast use vstd::seq::group_seq_axioms;

/// A piece of a text value: plain text `[lo, hi)`, a math span opening at
/// `start` with content `[content, end)`, or a footnote reference opening at
/// `start` with label `[label, end)`.
pub enum InlinePiece {
    Plain(int, int),
    Math(int, int, int),
    Footnote(int, int, int),
}

/// The pieces of the UTF-8 bytes `b` from byte `c` on: the plain text up to
/// the next inline extension, the extension, and the pieces after it.
pub open spec fn inline_pieces(b: Seq<u8>, c: int) -> Seq<InlinePiece>
    decreases b.len() - c,
{
    if c < 0 || c >= b.len() {
        Seq::empty()
    } else {
        match next_extension_from(b, c) {
            None => seq![InlinePiece::Plain(c, b.len() as int)],
            Some(e) => {
                let (piece, after) = match e.kind {
                    InlineExtensionKind::Math { content_start, end } => (
                        InlinePiece::Math(e.start as int, content_start as int, end as int),
                        end + 1,
                    ),
                    InlineExtensionKind::Footnote { label_start, end } => (
                        InlinePiece::Footnote(e.start as int, label_start as int, end as int),
                        end + 1,
                    ),
                };
                let lead = if e.start > c {
                    seq![InlinePiece::Plain(c, e.start as int)]
                } else {
                    Seq::empty()
                };
                if c < after <= b.len() {
                    lead + seq![piece] + inline_pieces(b, after)
                } else {
                    Seq::empty()
                }
            },
        }
    }
}

/// The span of source bytes `[lo, hi)`.
pub open spec fn span(src: Seq<u8>, lo: int, hi: int) -> SourcePosition {
    SourcePosition { start: spec_point_at(src, lo), end: spec_point_at(src, hi) }
}

/// `n` is the node for piece `p` of the text bytes `b`, which start at byte
/// `base` of the source `src`.
pub open spec fn piece_node(n: SupramarkNode, p: InlinePiece, b: Seq<u8>, base: int, src: Seq<u8>) -> bool {
    match p {
        InlinePiece::Plain(lo, hi) => n matches SupramarkNode::Text { value, position } && value@
            == spec_replace_emoji_shortcodes(decoded(b.subrange(lo, hi))) && position == Some(
            span(src, base + lo, base + hi),
        ),
        InlinePiece::Math(start, content, end) => n matches SupramarkNode::MathInline { value, position } && value@
            == decoded(b.subrange(content, end)) && position == Some(span(src, base + start, base + end + 1)),
        InlinePiece::Footnote(start, label_at, end) => n matches SupramarkNode::FootnoteReference {
            index,
            label,
            identifier,
            position,
        } && index == 0 && label@ == decoded(b.subrange(label_at, end)) && identifier@ == unicode_lowercase(
            collapse_white_space(label@),
        ) && position == Some(span(src, base + start, base + end + 1)),
    }
}

/// `ns` are the nodes of the pieces `ps`.
pub open spec fn pieces_nodes(ns: Seq<SupramarkNode>, ps: Seq<InlinePiece>, b: Seq<u8>, base: int, src: Seq<u8>) -> bool {
    ns.len() == ps.len() && forall|i: int| 0 <= i < ps.len() ==> piece_node(#[trigger] ns[i], ps[i], b, base, src)
}

/// What a text value with span `position` becomes: one text node when it has
/// no span, when the span does not cover exactly its bytes, or when it is
/// empty; else the nodes of its pieces.
pub open spec fn inline_text_nodes(ns: Seq<SupramarkNode>, value: Seq<char>, position: Option<SourcePosition>, src: Seq<u8>) -> bool {
    let b = encode_utf8(value);
    let whole = ns.len() == 1 && (ns[0] matches SupramarkNode::Text { value: v, position: p } && v@
        == spec_replace_emoji_shortcodes(value) && p == position);
    match position {
        None => whole,
        Some(p) => if !spans_len(p, b.len() as usize) || inline_pieces(b, 0).len() == 0 {
            whole
        } else {
            pieces_nodes(ns, inline_pieces(b, 0), b, p.start.byte_offset as int, src)
        },
    }
}

proof fn lemma_pieces_step(b: Seq<u8>, c: int)
    requires
        0 <= c < b.len(),
        b.len() <= usize::MAX,
    ensures
        match next_extension_from(b, c) {
            Some(e) => {
                let after = match e.kind {
                    InlineExtensionKind::Math { end, .. } => end + 1,
                    InlineExtensionKind::Footnote { end, .. } => end + 1,
                };
                c < after <= b.len()
            },
            None => true,
        },
{
    lemma_inline_extension_sound(b, c);
}

/// Append the text node for bytes `[start, end)` of `value`, if not empty.
fn push_text_slice(
    nodes: &mut Vec<SupramarkNode>,
    value: &str,
    start: usize,
    end: usize,
    source_start: usize,
    index: &OffsetIndex,
)
    requires
        index.wf(),
        start <= end <= value.spec_bytes().len(),
        source_start + end <= usize::MAX,
        0 < start < value.spec_bytes().len() ==> value.spec_bytes()[start as int] < 0x80 || value.spec_bytes()[start
            - 1] < 0x80,
        0 < end < value.spec_bytes().len() ==> value.spec_bytes()[end as int] < 0x80 || value.spec_bytes()[end - 1]
            < 0x80,
    ensures
        start == end ==> final(nodes)@ == old(nodes)@,
        start < end ==> final(nodes)@.len() == old(nodes)@.len() + 1 && final(nodes)@.drop_last() == old(nodes)@
            && piece_node(
            final(nodes)@.last(),
            InlinePiece::Plain(start as int, end as int),
            value.spec_bytes(),
            source_start as int,
            index.source(),
        ),
{
    if start >= end {
        return;
    }
    let b = value.as_bytes();
    proof {
        encode_utf8_valid_utf8(value@);
    }
    let t = string_of_ascii_cut(b, start, end);
    proof {
        encode_utf8_decode_utf8(t@);
    }
    let text = replace_emoji_shortcodes(t.as_str());
    let position = position_from_abs(index, source_start + start, source_start + end);
    nodes.push(SupramarkNode::Text { value: text, position: Some(position) });
}

/// Split a text value with span `position` into text, inline math and
/// footnote reference nodes (see `inline_text_nodes`).
pub fn map_inline_text(value: &str, position: Option<SourcePosition>, index: &OffsetIndex) -> (r: Vec<SupramarkNode>)
    requires
        index.wf(),
    ensures
        inline_text_nodes(r@, value@, position, index.source()),
{
    let whole_position = position;
    let position = match position {
        Some(p) => p,
        None => {
            return vec![SupramarkNode::Text { value: replace_emoji_shortcodes(value), position: None }];
        },
    };
    let source_start = position.start.byte_offset;
    let b = value.as_bytes();
    let n = b.len();
    if position.end.byte_offset.saturating_sub(source_start) != n {
        return vec![SupramarkNode::Text { value: replace_emoji_shortcodes(value), position: Some(position) }];
    }
    let ghost bytes = value.spec_bytes();
    let ghost src = index.source();
    let ghost all = inline_pieces(bytes, 0);
    proof {
        encode_utf8_valid_utf8(value@);
    }
    let mut nodes: Vec<SupramarkNode> = Vec::new();
    let ghost mut done: Seq<InlinePiece> = Seq::empty();
    let mut cursor: usize = 0;
    while cursor < n
        invariant_except_break
            cursor <= n,
            done + inline_pieces(bytes, cursor as int) == all,
            pieces_nodes(nodes@, done, bytes, source_start as int, src),
        invariant
            index.wf(),
            b@ == bytes,
            bytes == value.spec_bytes(),
            valid_utf8(bytes),
            src == index.source(),
            n == bytes.len(),
            n > 0 ==> source_start + n <= usize::MAX,
            0 < cursor < n ==> bytes[cursor - 1] < 0x80,
            all == inline_pieces(bytes, 0),
        ensures
            pieces_nodes(nodes@, all, bytes, source_start as int, src),
        decreases n - cursor,
    {
        proof {
            lemma_pieces_step(bytes, cursor as int);
            lemma_inline_extension_sound(bytes, cursor as int);
        }
        let next = match find_next_inline_extension(value, cursor) {
            Some(e) => e,
            None => {
                let ghost before = nodes@;
                push_text_slice(&mut nodes, value, cursor, n, source_start, index);
                proof {
                    let p = InlinePiece::Plain(cursor as int, n as int);
                    assert(inline_pieces(bytes, cursor as int) == seq![p]);
                    assert(inline_pieces(bytes, n as int) =~= Seq::<InlinePiece>::empty());
                    assert forall|i: int| 0 <= i < done.len() + 1 implies piece_node(
                        #[trigger] nodes@[i],
                        (done + seq![p])[i],
                        bytes,
                        source_start as int,
                        src,
                    ) by {
                        if i < done.len() {
                            assert(nodes@[i] == before[i]);
                        }
                    }
                    done = done + seq![p];
                    assert(done =~= all);
                }
                break;
            },
        };
        let ghost before = nodes@;
        push_text_slice(&mut nodes, value, cursor, next.start, source_start, index);
        let ghost lead: Seq<InlinePiece> = if next.start > cursor {
            seq![InlinePiece::Plain(cursor as int, next.start as int)]
        } else {
            Seq::empty()
        };
        let ghost mid = nodes@;
        proof {
            assert(pieces_nodes(nodes@, done + lead, bytes, source_start as int, src)) by {
                assert forall|i: int| 0 <= i < (done + lead).len() implies piece_node(
                    #[trigger] nodes@[i],
                    (done + lead)[i],
                    bytes,
                    source_start as int,
                    src,
                ) by {
                    if i < done.len() {
                        assert(nodes@[i] == before[i]);
                    }
                }
            }
        }
        let ghost c0 = cursor as int;
        let ghost piece = match next.kind {
            InlineExtensionKind::Math { content_start, end } => InlinePiece::Math(
                next.start as int,
                content_start as int,
                end as int,
            ),
            InlineExtensionKind::Footnote { label_start, end } => InlinePiece::Footnote(
                next.start as int,
                label_start as int,
                end as int,
            ),
        };
        match next.kind {
            InlineExtensionKind::Math { content_start, end } => {
                let content = string_of_ascii_cut(b, content_start, end);
                proof {
                    encode_utf8_decode_utf8(content@);
                }
                let position = position_from_abs(index, source_start + next.start, source_start + end + 1);
                nodes.push(SupramarkNode::MathInline { value: content, position: Some(position) });
                cursor = end + 1;
            },
            InlineExtensionKind::Footnote { label_start, end } => {
                let label = string_of_ascii_cut(b, label_start, end);
                proof {
                    encode_utf8_decode_utf8(label@);
                }
                let identifier = normalize_footnote_identifier(label.as_str());
                let position = position_from_abs(index, source_start + next.start, source_start + end + 1);
                nodes.push(SupramarkNode::FootnoteReference { index: 0, label, identifier, position: Some(position) });
                cursor = end + 1;
            },
        }
        proof {
            assert(inline_pieces(bytes, c0) == lead + seq![piece] + inline_pieces(bytes, cursor as int));
            assert(piece_node(nodes@.last(), piece, bytes, source_start as int, src));
            let done2 = done + lead + seq![piece];
            assert forall|i: int| 0 <= i < done2.len() implies piece_node(
                #[trigger] nodes@[i],
                done2[i],
                bytes,
                source_start as int,
                src,
            ) by {
                if i < done2.len() - 1 {
                    assert(nodes@[i] == mid[i]);
                }
            }
            assert(done2 + inline_pieces(bytes, cursor as int) =~= done + inline_pieces(bytes, c0));
            done = done2;
        }
    }
    if nodes.len() == 0 {
        return vec![SupramarkNode::Text { value: replace_emoji_shortcodes(value), position: whole_position }];
    }
    nodes
}

/// The bytes `[lo, hi)` of the text value that a piece stands for.
pub open spec fn piece_range(p: InlinePiece) -> (int, int) {
    match p {
        InlinePiece::Plain(lo, hi) => (lo, hi),
        InlinePiece::Math(start, _, end) => (start, end + 1),
        InlinePiece::Footnote(start, _, end) => (start, end + 1),
    }
}

/// The pieces tile the bytes `[c, hi)`: each is non-empty and starts where
/// the one before it ends.
pub open spec fn tiles(ps: Seq<InlinePiece>, c: int, hi: int) -> bool {
    &&& ps.len() == 0 <==> c == hi
    &&& ps.len() > 0 ==> piece_range(ps[0]).0 == c && piece_range(ps.last()).1 == hi
    &&& forall|i: int| 0 <= i < ps.len() ==> #[trigger] piece_range(ps[i]).0 < piece_range(ps[i]).1
    &&& forall|i: int| 0 <= i < ps.len() - 1 ==> #[trigger] piece_range(ps[i]).1 == piece_range(ps[i + 1]).0
}

/// Splitting a text value loses and repeats nothing: its pieces tile the
/// value from the first byte to the last.
pub proof fn lemma_inline_pieces_tile(b: Seq<u8>, c: int)
    requires
        0 <= c <= b.len(),
        b.len() <= usize::MAX,
    ensures
        tiles(inline_pieces(b, c), c, b.len() as int),
    decreases b.len() - c,
{
    if c < b.len() {
        lemma_inline_extension_sound(b, c);
        match next_extension_from(b, c) {
            None => {},
            Some(e) => {
                let after = match e.kind {
                    InlineExtensionKind::Math { end, .. } => end + 1,
                    InlineExtensionKind::Footnote { end, .. } => end + 1,
                };
                lemma_inline_pieces_tile(b, after);
                let ps = inline_pieces(b, c);
                let rest = inline_pieces(b, after);
                let head: Seq<InlinePiece> = ps.take(ps.len() - rest.len());
                assert(ps =~= head + rest);
                assert forall|i: int| 0 <= i < ps.len() implies #[trigger] piece_range(ps[i]).0 < piece_range(ps[i]).1 by {
                    if i >= head.len() {
                        assert(ps[i] == rest[i - head.len()]);
                    }
                }
                assert forall|i: int| 0 <= i < ps.len() - 1 implies #[trigger] piece_range(ps[i]).1 == piece_range(
                    ps[i + 1],
                ).0 by {
                    if i >= head.len() {
                        assert(ps[i] == rest[i - head.len()]);
                        assert(ps[i + 1] == rest[i + 1 - head.len()]);
                    }
                }
            },
        }
    }
}

impl<'a> AstV2Ctx<'a> {
    /// Split a text value with span `position` (see `map_inline_text`).
    pub fn map_inline_text(&self, value: &str, position: Option<SourcePosition>) -> (r: Vec<SupramarkNode>)
        requires
            self.index.wf(),
        ensures
            inline_text_nodes(r@, value@, position, self.index.source()),
    {
        map_inline_text(value, position, self.index)
    }
}

/// A step of the rescan: a node passed through, or a run of adjacent text
/// joined into one value with its span.
pub enum TextRun {
    Other(SupramarkNode),
    Run(Seq<char>, Option<SourcePosition>),
}

/// A text node with span `p` continues the run `r`: both have spans and the
/// run ends where the text starts.
pub open spec fn continues(r: TextRun, p: Option<SourcePosition>) -> bool {
    match (r, p) {
        (TextRun::Run(_, Some(e)), Some(q)) => e.end.byte_offset == q.start.byte_offset,
        _ => false,
    }
}

/// The runs of a node list: each text node joins the run before it when it
/// continues it, else starts a run of its own; other nodes pass through.
pub open spec fn text_runs(ns: Seq<SupramarkNode>) -> Seq<TextRun>
    decreases ns.len(),
{
    if ns.len() == 0 {
        Seq::empty()
    } else {
        let g = text_runs(ns.drop_last());
        match ns.last() {
            SupramarkNode::Text { value, position } => if g.len() > 0 && continues(g.last(), position) {
                match (g.last(), position) {
                    (TextRun::Run(v, Some(e)), Some(q)) => g.drop_last().push(
                        TextRun::Run(v + value@, Some(SourcePosition { start: e.start, end: q.end })),
                    ),
                    _ => g,
                }
            } else {
                g.push(TextRun::Run(value@, position))
            },
            other => g.push(TextRun::Other(other)),
        }
    }
}

/// Whether a text value may hold inline math or a footnote reference.
pub open spec fn scan_needed(b: Seq<u8>) -> bool {
    has_byte(b, 36) || has_caret_open(b)
}

/// `chunk` is what a run becomes: nothing for empty text, the split nodes of
/// text that may hold inline extensions, else one text node.
pub open spec fn run_nodes(chunk: Seq<SupramarkNode>, r: TextRun, src: Seq<u8>) -> bool {
    match r {
        TextRun::Other(n) => chunk == seq![n],
        TextRun::Run(v, p) => if v.len() == 0 {
            chunk.len() == 0
        } else if scan_needed(encode_utf8(v)) {
            inline_text_nodes(chunk, v, p, src)
        } else {
            chunk.len() == 1 && (chunk[0] matches SupramarkNode::Text { value, position } && value@ == v && position
                == p)
        },
    }
}

/// Emit the pending run (see `run_nodes`) and leave it empty.
fn flush_text_run(
    out: &mut Vec<SupramarkNode>,
    value: &mut String,
    position: &mut Option<SourcePosition>,
    index: &OffsetIndex,
)
    requires
        index.wf(),
    ensures
        final(value)@ == Seq::<char>::empty(),
        *final(position) is None,
        final(out)@.len() >= old(out)@.len(),
        final(out)@.take(old(out)@.len() as int) == old(out)@,
        run_nodes(final(out)@.skip(old(out)@.len() as int), TextRun::Run(old(value)@, *old(position)), index.source()),
{
    let mut value_out = String::new();
    std::mem::swap(value, &mut value_out);
    let mut position_out: Option<SourcePosition> = None;
    std::mem::swap(position, &mut position_out);
    let ghost before = out@;
    if value_out.as_str().is_empty() {
        proof {
            assert(out@.skip(before.len() as int) =~= Seq::<SupramarkNode>::empty());
            assert(out@.take(before.len() as int) =~= before);
        }
        return;
    }
    if inline_extension_scan_needed(value_out.as_str()) {
        let mut nodes = map_inline_text(value_out.as_str(), position_out, index);
        let ghost chunk = nodes@;
        out.append(&mut nodes);
        proof {
            assert(out@.skip(before.len() as int) =~= chunk);
            assert(out@.take(before.len() as int) =~= before);
        }
    } else {
        out.push(SupramarkNode::Text { value: value_out, position: position_out });
        proof {
            assert(out@.skip(before.len() as int) =~= seq![out@.last()]);
            assert(out@.take(before.len() as int) =~= before);
        }
    }
}

proof fn lemma_flatten_push(chunks: Seq<Seq<SupramarkNode>>, c: Seq<SupramarkNode>)
    ensures
        chunks.push(c).flatten_alt() == chunks.flatten_alt() + c,
{
    assert(chunks.push(c).drop_last() =~= chunks);
}

/// Join adjacent text nodes into runs and split each run into text, inline
/// math and footnote reference nodes (see `text_runs` and `run_nodes`): a
/// math span or reference that the parser left cut across several text nodes
/// is found again.
pub fn rescan_adjacent_text_runs(nodes: Vec<SupramarkNode>, index: &OffsetIndex) -> (r: Vec<SupramarkNode>)
    requires
        index.wf(),
    ensures
        exists|chunks: Seq<Seq<SupramarkNode>>|
            chunks.len() == text_runs(nodes@).len() && (forall|i: int|
                0 <= i < chunks.len() ==> run_nodes(#[trigger] chunks[i], text_runs(nodes@)[i], index.source()))
                && r@ == chunks.flatten_alt(),
{
    let mut nodes = nodes;
    let ghost ns = nodes@;
    let mut out: Vec<SupramarkNode> = Vec::new();
    let mut run_value = String::new();
    let mut run_position: Option<SourcePosition> = None;
    let ghost mut chunks: Seq<Seq<SupramarkNode>> = Seq::empty();
    let mut i: usize = 0;
    while i < nodes.len()
        invariant
            index.wf(),
            nodes@.len() == ns.len(),
            i <= ns.len(),
            forall|k: int| i <= k < ns.len() ==> nodes@[k] == ns[k],
            ({
                let g = text_runs(ns.take(i as int));
                &&& g.len() == chunks.len() + 1 || (g.len() == chunks.len() && run_value@.len() == 0
                    && run_position is None)
                &&& g.len() == chunks.len() + 1 ==> g.last() == TextRun::Run(run_value@, run_position)
                &&& g.len() == chunks.len() && g.len() > 0 ==> g.last() is Other
                &&& forall|k: int| 0 <= k < chunks.len() ==> run_nodes(#[trigger] chunks[k], g[k], index.source())
            }),
            out@ == chunks.flatten_alt(),
        decreases ns.len() - i,
    {
        let ghost g0 = text_runs(ns.take(i as int));
        proof {
            assert(ns.take(i + 1).drop_last() =~= ns.take(i as int));
            assert(ns.take(i + 1).last() == ns[i as int]);
        }
        let mut node = SupramarkNode::Break { position: None };
        std::mem::swap(&mut nodes[i], &mut node);
        let ghost chunks0 = chunks;
        match node {
            SupramarkNode::Text { value, position } => {
                let joins = match (&run_position, &position) {
                    (Some(e), Some(q)) => e.end.byte_offset == q.start.byte_offset,
                    _ => false,
                };
                if joins {
                    let ghost v0 = run_value@;
                    let v = chars_of(value.as_str());
                    push_chars(&mut run_value, v.as_slice(), 0, v.len());
                    proof {
                        assert(v@.subrange(0, v@.len() as int) =~= v@);
                    }
                    match (run_position, position) {
                        (Some(e), Some(q)) => {
                            run_position = Some(SourcePosition { start: e.start, end: q.end });
                        },
                        _ => {},
                    }
                    proof {
                        let g = text_runs(ns.take(i + 1));
                        assert(g == g0.drop_last().push(TextRun::Run(v0 + value@, run_position)));
                        assert forall|k: int| 0 <= k < chunks.len() implies run_nodes(
                            #[trigger] chunks[k],
                            g[k],
                            index.source(),
                        ) by {
                            assert(g[k] == g0[k]);
                        }
                    }
                } else {
                    let ghost before = out@;
                    proof {
                        assert(!(g0.len() > 0 && continues(g0.last(), position)));
                    }
                    flush_text_run(&mut out, &mut run_value, &mut run_position, index);
                    proof {
                        let c = out@.skip(before.len() as int);
                        assert(out@ =~= before + c);
                        if g0.len() == chunks.len() + 1 {
                            lemma_flatten_push(chunks, c);
                            chunks = chunks.push(c);
                        } else {
                            assert(c.len() == 0);
                            assert(out@ =~= before);
                        }
                        let g = text_runs(ns.take(i + 1));
                        assert(g == g0.push(TextRun::Run(value@, position)));
                        assert forall|k: int| 0 <= k < chunks.len() implies run_nodes(
                            #[trigger] chunks[k],
                            g[k],
                            index.source(),
                        ) by {
                            assert(g[k] == g0[k]);
                            if k < chunks0.len() {
                                assert(chunks[k] == chunks0[k]);
                            }
                        }
                    }
                    run_value = value;
                    run_position = position;
                }
            },
            other => {
                let ghost before = out@;
                flush_text_run(&mut out, &mut run_value, &mut run_position, index);
                proof {
                    let c = out@.skip(before.len() as int);
                    assert(out@ =~= before + c);
                    if g0.len() == chunks.len() + 1 {
                        lemma_flatten_push(chunks, c);
                        chunks = chunks.push(c);
                    } else {
                        assert(c.len() == 0);
                        assert(out@ =~= before);
                    }
                }
                let ghost chunks1 = chunks;
                let ghost before2 = out@;
                out.push(other);
                proof {
                    lemma_flatten_push(chunks, seq![other]);
                    chunks = chunks.push(seq![other]);
                    assert(out@ =~= before2 + seq![other]);
                    let g = text_runs(ns.take(i + 1));
                    assert(g == g0.push(TextRun::Other(other)));
                    assert forall|k: int| 0 <= k < chunks.len() implies run_nodes(
                        #[trigger] chunks[k],
                        g[k],
                        index.source(),
                    ) by {
                        if k < chunks.len() - 1 {
                            assert(g[k] == g0[k]);
                            assert(chunks[k] == chunks1[k]);
                            if k < chunks0.len() {
                                assert(chunks1[k] == chunks0[k]);
                            }
                        }
                    }
                }
            },
        }
        i += 1;
    }
    let ghost before = out@;
    let ghost g = text_runs(ns);
    proof {
        assert(ns.take(ns.len() as int) =~= ns);
    }
    let ghost chunks0 = chunks;
    flush_text_run(&mut out, &mut run_value, &mut run_position, index);
    proof {
        let c = out@.skip(before.len() as int);
        assert(out@ =~= before + c);
        if g.len() == chunks.len() + 1 {
            lemma_flatten_push(chunks, c);
            chunks = chunks.push(c);
            assert forall|k: int| 0 <= k < chunks.len() implies run_nodes(
                #[trigger] chunks[k],
                g[k],
                index.source(),
            ) by {
                if k < chunks0.len() {
                    assert(chunks[k] == chunks0[k]);
                }
            }
        } else {
            assert(out@ =~= before);
        }
        assert(chunks.len() == g.len());
    }
    out
}

} // verus!

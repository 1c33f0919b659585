//! Source positions: the index that turns a byte offset of the source into a
//! line, a column and a UTF-16 offset.
//!
//! Every character of the source starts at a byte that is not a UTF-8
//! continuation byte, so the scan is stated over bytes: a character is
//! counted at its leading byte. Lines and columns are 1-based; a `\n` ends a
//! line; a character of four UTF-8 bytes takes two UTF-16 units.
use vstd::prelude::*;
use vstd::utf8::*;
use vstd::string::StringSliceAdditionalSpecFns;

verus! {

broadcast use vstd::seq::group_seq_axioms;

/// A position in the source: 1-based line and column (in characters), and the
/// offsets from the start of the source in bytes and in UTF-16 units.
#[derive(Clone, Copy, Debug, PartialEq, Eq, Structural)]
pub struct SourcePoint {
    pub line: u32,
    pub column: u32,
    pub byte_offset: usize,
    pub utf16_offset: usize,
}

/// A span of the source.
#[derive(Clone, Copy, Debug, PartialEq, Eq, Structural)]
pub struct SourcePosition {
    pub start: SourcePoint,
    pub end: SourcePoint,
}

/// A byte that starts a character (or is ASCII): not a continuation byte.
pub open spec fn starts_char(b: u8) -> bool {
    !is_continuation_byte(b)
}

/// Line, column and UTF-16 offset reached after the bytes `src[..p]`, each
/// character being counted at its first byte.
pub open spec fn point_after(src: Seq<u8>, p: int) -> (int, int, int)
    decreases p,
{
    if p <= 0 {
        (1, 1, 0)
    } else {
        let prev = point_after(src, p - 1);
        let b = src[p - 1];
        if !starts_char(b) {
            prev
        } else if b == 10 {
            (prev.0 + 1, 1, prev.2 + 1)
        } else {
            (prev.0, prev.1 + 1, prev.2 + if b >= 0xF0 { 2int } else { 1int })
        }
    }
}

/// The start of the character that holds byte `p`; the end of the source for
/// an offset at or past it.
pub open spec fn char_start_at(src: Seq<u8>, p: int) -> int
    decreases p,
{
    if p >= src.len() {
        src.len() as int
    } else if p <= 0 {
        0
    } else if starts_char(src[p]) {
        p
    } else {
        char_start_at(src, p - 1)
    }
}

/// The point of the source at byte `q`.
pub open spec fn point_spec(src: Seq<u8>, q: int) -> SourcePoint {
    let t = point_after(src, q);
    SourcePoint { line: t.0 as u32, column: t.1 as u32, byte_offset: q as usize, utf16_offset: t.2 as usize }
}

/// The point that `point_at` gives for byte offset `o`: that of the start of
/// the character holding it (the end of the source past its end).
pub open spec fn spec_point_at(src: Seq<u8>, o: int) -> SourcePoint {
    point_spec(src, char_start_at(src, o))
}

proof fn lemma_point_after_bounds(src: Seq<u8>, p: int)
    requires
        0 <= p <= src.len(),
    ensures
        1 <= point_after(src, p).0 <= p + 1,
        1 <= point_after(src, p).1 <= p + 1,
        0 <= point_after(src, p).2 <= 2 * p,
    decreases p,
{
    if p > 0 {
        lemma_point_after_bounds(src, p - 1);
    }
}

/// Index from the byte offset of every character start (and of the end of the
/// source) to its point.
pub struct OffsetIndex {
    entries: Vec<(usize, SourcePoint)>,
    src: Ghost<Seq<u8>>,
}

impl OffsetIndex {
    /// The UTF-8 bytes of the source the index was built from.
    pub closed spec fn source(&self) -> Seq<u8> {
        self.src@
    }

    /// The entries are the character starts of the source in increasing
    /// order, then its end, each with its point.
    pub closed spec fn wf(&self) -> bool {
        let e = self.entries@;
        let src = self.src@;
        &&& e.len() >= 1
        &&& e[0].0 == 0
        &&& e[e.len() - 1].0 == src.len()
        &&& src.len() < u32::MAX
        &&& forall|k: int| 0 <= k < e.len() ==> #[trigger] e[k].1 == point_spec(src, e[k].0 as int)
        &&& forall|k: int| 0 <= k < e.len() - 1 ==> (#[trigger] e[k].0) < src.len() && starts_char(src[e[k].0 as int])
        &&& forall|i: int, j: int| 0 <= i < j < e.len() ==> (#[trigger] e[i].0) < (#[trigger] e[j].0)
        &&& forall|k: int, q: int|
            0 <= k < e.len() - 1 && (#[trigger] e[k].0) < q < e[k + 1].0 ==> !starts_char(#[trigger] src[q])
    }

    /// Build the index of `source` in one pass over its bytes.
    pub fn new(source: &str) -> (r: Self)
        requires
            source.spec_bytes().len() < u32::MAX,
            source.spec_bytes().len() <= isize::MAX,
        ensures
            r.wf(),
            r.source() == source.spec_bytes(),
    {
        let bytes = source.as_bytes();
        let n = bytes.len();
        let ghost src = bytes@;
        proof {
            encode_utf8_valid_utf8(source@);
            if n > 0 {
                is_char_boundary_start_end_of_seq(src);
                is_char_boundary_iff_not_is_continuation_byte(src, 0);
            }
        }
        let mut entries: Vec<(usize, SourcePoint)> = Vec::new();
        let mut line: u32 = 1;
        let mut column: u32 = 1;
        let mut utf16_offset: usize = 0;
        let mut i: usize = 0;
        while i < n
            invariant
                n == src.len(),
                bytes@ == src,
                n < u32::MAX,
                n <= isize::MAX,
                i <= n,
                n > 0 ==> starts_char(src[0]),
                (line as int, column as int, utf16_offset as int) == point_after(src, i as int),
                i > 0 ==> entries@.len() >= 1 && entries@[0].0 == 0,
                i == 0 ==> entries@.len() == 0,
                forall|k: int| 0 <= k < entries@.len() ==> #[trigger] entries@[k].1 == point_spec(src, entries@[k].0 as int),
                forall|k: int| 0 <= k < entries@.len() ==> (#[trigger] entries@[k].0) < i && starts_char(src[entries@[k].0 as int]),
                forall|a: int, b: int| 0 <= a < b < entries@.len() ==> (#[trigger] entries@[a].0) < (#[trigger] entries@[b].0),
                forall|k: int, q: int|
                    0 <= k < entries@.len() - 1 && (#[trigger] entries@[k].0) < q < entries@[k + 1].0 ==> !starts_char(#[trigger] src[q]),
                entries@.len() > 0 ==> forall|q: int| entries@[entries@.len() - 1].0 < q < i ==> !starts_char(#[trigger] src[q]),
            decreases n - i,
        {
            proof {
                lemma_point_after_bounds(src, i as int);
                lemma_point_after_bounds(src, i as int + 1);
            }
            let b = bytes[i];
            if !(0x80 <= b && b <= 0xBF) {
                let ghost old_entries = entries@;
                entries.push((i, SourcePoint { line, column, byte_offset: i, utf16_offset }));
                proof {
                    assert forall|k: int, q: int|
                        0 <= k < entries@.len() - 1 && (#[trigger] entries@[k].0) < q < entries@[k + 1].0 implies !starts_char(#[trigger] src[q]) by {
                        if k < old_entries.len() - 1 {
                            assert(entries@[k] == old_entries[k]);
                            assert(entries@[k + 1] == old_entries[k + 1]);
                        } else {
                            assert(entries@[k] == old_entries[old_entries.len() - 1]);
                        }
                    }
                }
                if b == 10 {
                    line = line + 1;
                    column = 1;
                    utf16_offset = utf16_offset + 1;
                } else {
                    column = column + 1;
                    if b >= 0xF0 {
                        utf16_offset = utf16_offset + 2;
                    } else {
                        utf16_offset = utf16_offset + 1;
                    }
                }
            }
            i = i + 1;
        }
        let ghost old_entries = entries@;
        entries.push((n, SourcePoint { line, column, byte_offset: n, utf16_offset }));
        proof {
            assert forall|k: int, q: int|
                0 <= k < entries@.len() - 1 && (#[trigger] entries@[k].0) < q < entries@[k + 1].0 implies !starts_char(#[trigger] src[q]) by {
                if k < old_entries.len() - 1 {
                    assert(entries@[k] == old_entries[k]);
                    assert(entries@[k + 1] == old_entries[k + 1]);
                } else {
                    assert(entries@[k] == old_entries[old_entries.len() - 1]);
                }
            }
        }
        OffsetIndex { entries, src: Ghost(src) }
    }

    /// The point of byte offset `byte_offset`: that of the character holding
    /// it, or of the end of the source for an offset at or past its end.
    pub fn point_at(&self, byte_offset: usize) -> (r: SourcePoint)
        requires
            self.wf(),
        ensures
            r == spec_point_at(self.source(), byte_offset as int),
    {
        let n = self.entries.len();
        let ghost e = self.entries@;
        let ghost src = self.src@;
        let mut lo: usize = 0;
        let mut hi: usize = n;
        while hi - lo > 1
            invariant
                self.wf(),
                e == self.entries@,
                src == self.src@,
                n == e.len(),
                lo < hi <= n,
                e[lo as int].0 <= byte_offset,
                hi < n ==> byte_offset < e[hi as int].0,
            decreases hi - lo,
        {
            let mid = lo + (hi - lo) / 2;
            if self.entries[mid].0 <= byte_offset {
                lo = mid;
            } else {
                hi = mid;
            }
        }
        proof {
            if lo < n - 1 {
                assert(hi == lo + 1);
                lemma_char_start_between(src, e[lo as int].0 as int, e[lo + 1].0 as int, byte_offset as int);
            } else {
                assert(e[lo as int].0 == src.len());
            }
        }
        self.entries[lo].1
    }
}

/// With no character start in `(a, b)`, every offset in `[a, b)` belongs to
/// the character that starts at `a`.
proof fn lemma_char_start_between(src: Seq<u8>, a: int, b: int, o: int)
    requires
        0 <= a <= o < b <= src.len(),
        starts_char(src[a]),
        forall|q: int| a < q < b ==> !starts_char(#[trigger] src[q]),
    ensures
        char_start_at(src, o) == a,
    decreases o,
{
    if o > a {
        lemma_char_start_between(src, a, b, o - 1);
    }
}

proof fn lemma_char_start_at_bounds(src: Seq<u8>, p: int)
    ensures
        0 <= char_start_at(src, p) <= src.len(),
        p >= 0 ==> char_start_at(src, p) <= p || p >= src.len(),
        char_start_at(src, p) < src.len() ==> char_start_at(src, p) == 0 || starts_char(src[char_start_at(src, p)]),
    decreases p,
{
    if 0 < p < src.len() && !starts_char(src[p]) {
        lemma_char_start_at_bounds(src, p - 1);
    }
}

proof fn lemma_char_start_at_mono(src: Seq<u8>, p: int, q: int)
    requires
        p <= q,
    ensures
        char_start_at(src, p) <= char_start_at(src, q),
    decreases q - p,
{
    lemma_char_start_at_bounds(src, p);
    lemma_char_start_at_bounds(src, q);
    if p < q {
        lemma_char_start_at_mono(src, p, q - 1);
        if 0 < q < src.len() && !starts_char(src[q]) {
        } else if q >= src.len() {
            lemma_char_start_at_bounds(src, q - 1);
        } else if q <= 0 {
        } else {
            lemma_char_start_at_bounds(src, q - 1);
        }
    }
}

proof fn lemma_point_after_mono(src: Seq<u8>, p: int, q: int)
    requires
        p <= q,
    ensures
        point_after(src, p).0 <= point_after(src, q).0,
        point_after(src, p).2 <= point_after(src, q).2,
    decreases q - p,
{
    if p < q {
        lemma_point_after_mono(src, p, q - 1);
    }
}

/// The point of a character start (or of the end of the source) is at that
/// very byte: looking a position up gives back its offset.
pub proof fn lemma_point_at_char_start(src: Seq<u8>, o: int)
    requires
        0 <= o <= src.len(),
        src.len() <= usize::MAX,
        o == src.len() || o == 0 || starts_char(src[o]),
    ensures
        spec_point_at(src, o).byte_offset == o,
{
    assert(char_start_at(src, o) == o);
}

/// Points are in source order: a later byte offset has a later (or the
/// same) point, line and UTF-16 offset.
pub proof fn lemma_point_at_monotonic(src: Seq<u8>, o1: int, o2: int)
    requires
        0 <= o1 <= o2,
        src.len() < u32::MAX,
        src.len() <= isize::MAX,
    ensures
        spec_point_at(src, o1).byte_offset <= spec_point_at(src, o2).byte_offset,
        spec_point_at(src, o1).line <= spec_point_at(src, o2).line,
        spec_point_at(src, o1).utf16_offset <= spec_point_at(src, o2).utf16_offset,
{
    lemma_char_start_at_mono(src, o1, o2);
    let c1 = char_start_at(src, o1);
    let c2 = char_start_at(src, o2);
    lemma_char_start_at_bounds(src, o1);
    lemma_char_start_at_bounds(src, o2);
    lemma_point_after_mono(src, c1, c2);
    lemma_point_after_bounds(src, c1);
    lemma_point_after_bounds(src, c2);
}

/// The span between two byte offsets.
pub fn position_from_abs(index: &OffsetIndex, start: usize, end: usize) -> (r: SourcePosition)
    requires
        index.wf(),
    ensures
        r.start == spec_point_at(index.source(), start as int),
        r.end == spec_point_at(index.source(), end as int),
{
    SourcePosition { start: index.point_at(start), end: index.point_at(end) }
}

/// The span of the whole source.
pub fn root_position(source: &str, index: &OffsetIndex) -> (r: SourcePosition)
    requires
        index.wf(),
        index.source() == source.spec_bytes(),
    ensures
        r.start == spec_point_at(source.spec_bytes(), 0),
        r.end == spec_point_at(source.spec_bytes(), source.spec_bytes().len() as int),
{
    position_from_abs(index, 0, source.len())
}

/// `a - b`, or 0 when `b > a`.
pub open spec fn saturating_diff(a: usize, b: usize) -> int {
    if a >= b { a - b } else { 0 }
}

/// A span covers exactly `len` bytes.
pub open spec fn spans_len(p: SourcePosition, len: usize) -> bool {
    saturating_diff(p.end.byte_offset, p.start.byte_offset) == len
}

pub open spec fn opt_pos(p: Option<&SourcePosition>) -> Option<SourcePosition> {
    match p {
        Some(q) => Some(*q),
        None => None,
    }
}

/// The span of `value[lo..hi]` in a text node of `value_len` bytes spanning
/// `parent`; `None` without a parent span or when it does not cover exactly
/// `value_len` bytes.
pub open spec fn spec_sub_text_position(
    src: Seq<u8>,
    parent: Option<SourcePosition>,
    value_len: usize,
    lo: usize,
    hi: usize,
) -> Option<SourcePosition> {
    match parent {
        Some(p) => if spans_len(p, value_len) {
            Some(
                SourcePosition {
                    start: spec_point_at(src, p.start.byte_offset + lo),
                    end: spec_point_at(src, p.start.byte_offset + hi),
                },
            )
        } else {
            None
        },
        None => None,
    }
}

/// The span from byte `open_k` of the node spanning `open` to just past byte
/// `close_br` of the node spanning `close`, both spans covering exactly their
/// values.
pub open spec fn spec_ref_position(
    src: Seq<u8>,
    open: Option<SourcePosition>,
    open_value_len: usize,
    open_k: usize,
    close: Option<SourcePosition>,
    close_value_len: usize,
    close_br: usize,
) -> Option<SourcePosition> {
    match (open, close) {
        (Some(o), Some(c)) => if spans_len(o, open_value_len) && spans_len(c, close_value_len) {
            Some(
                SourcePosition {
                    start: spec_point_at(src, o.start.byte_offset + open_k),
                    end: spec_point_at(src, c.start.byte_offset + close_br + 1),
                },
            )
        } else {
            None
        },
        _ => None,
    }
}

/// The span of `value[lo..hi]` inside a text node whose value `value` (of
/// `value_len` bytes) covers the span `parent`. `None` without a parent span,
/// or when that span does not cover exactly `value_len` bytes (the offsets
/// into the value would not be offsets into the source).
pub fn sub_text_position(
    index: &OffsetIndex,
    parent: Option<&SourcePosition>,
    value_len: usize,
    lo: usize,
    hi: usize,
) -> (r: Option<SourcePosition>)
    requires
        index.wf(),
        match parent {
            Some(p) => spans_len(*p, value_len) ==> p.start.byte_offset + lo <= usize::MAX
                && p.start.byte_offset + hi <= usize::MAX,
            None => true,
        },
    ensures
        r == spec_sub_text_position(index.source(), opt_pos(parent), value_len, lo, hi),
{
    let parent = match parent {
        Some(p) => p,
        None => {
            return None;
        },
    };
    if parent.end.byte_offset.saturating_sub(parent.start.byte_offset) != value_len {
        return None;
    }
    Some(
        SourcePosition {
            start: index.point_at(parent.start.byte_offset + lo),
            end: index.point_at(parent.start.byte_offset + hi),
        },
    )
}

/// The span of a footnote reference `[^…]` rebuilt from several text nodes:
/// from the `[` at byte `open_k` of the opening node to just past the `]` at
/// byte `close_br` of the closing node. `None` unless both nodes have spans
/// that cover exactly their values.
pub fn ref_position(
    index: &OffsetIndex,
    open: Option<&SourcePosition>,
    open_value_len: usize,
    open_k: usize,
    close: Option<&SourcePosition>,
    close_value_len: usize,
    close_br: usize,
) -> (r: Option<SourcePosition>)
    requires
        index.wf(),
        match (open, close) {
            (Some(o), Some(c)) => spans_len(*o, open_value_len) && spans_len(*c, close_value_len) ==> o.start.byte_offset
                + open_k <= usize::MAX && c.start.byte_offset + close_br + 1 <= usize::MAX,
            _ => true,
        },
    ensures
        r == spec_ref_position(
            index.source(),
            opt_pos(open),
            open_value_len,
            open_k,
            opt_pos(close),
            close_value_len,
            close_br,
        ),
{
    let open = match open {
        Some(o) => o,
        None => {
            return None;
        },
    };
    let close = match close {
        Some(c) => c,
        None => {
            return None;
        },
    };
    if open.end.byte_offset.saturating_sub(open.start.byte_offset) != open_value_len {
        return None;
    }
    if close.end.byte_offset.saturating_sub(close.start.byte_offset) != close_value_len {
        return None;
    }
    Some(
        SourcePosition {
            start: index.point_at(open.start.byte_offset + open_k),
            end: index.point_at(close.start.byte_offset + close_br + 1),
        },
    )
}

/// The span of a parsed node, from its source map `(start, end)` (byte
/// offsets into a fragment that starts at `base_offset` in the source).
pub fn position_for(srcmap: Option<(usize, usize)>, index: &OffsetIndex, base_offset: usize) -> (r: Option<
    SourcePosition,
>)
    requires
        index.wf(),
        srcmap matches Some((s, e)) ==> base_offset + s <= usize::MAX && base_offset + e <= usize::MAX,
    ensures
        r == (match srcmap {
            Some((s, e)) => Some(
                SourcePosition {
                    start: spec_point_at(index.source(), base_offset + s),
                    end: spec_point_at(index.source(), base_offset + e),
                },
            ),
            None => None,
        }),
{
    match srcmap {
        Some((start, end)) => Some(position_from_abs(index, base_offset + start, base_offset + end)),
        None => None,
    }
}

/// What the conversion of parsed nodes into the document model carries along:
/// the offset index of the source and the offset of the parsed fragment.
pub struct AstV2Ctx<'a> {
    pub index: &'a OffsetIndex,
    pub base_offset: usize,
}

impl<'a> AstV2Ctx<'a> {
    /// The span of a node with source map `srcmap`.
    pub fn position(&self, srcmap: Option<(usize, usize)>) -> (r: Option<SourcePosition>)
        requires
            self.index.wf(),
            srcmap matches Some((s, e)) ==> self.base_offset + s <= usize::MAX && self.base_offset + e
                <= usize::MAX,
        ensures
            r == (match srcmap {
                Some((s, e)) => Some(
                    SourcePosition {
                        start: spec_point_at(self.index.source(), self.base_offset + s),
                        end: spec_point_at(self.index.source(), self.base_offset + e),
                    },
                ),
                None => None,
            }),
    {
        position_for(srcmap, self.index, self.base_offset)
    }
}

} // verus!

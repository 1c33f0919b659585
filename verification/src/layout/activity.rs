//! Text helpers of the activity-diagram layout: creole tables in labels,
//! creole markup left open at a line break, label lines, swimlane lookup, the
//! order in which partition frames are drawn, and the modes of notes.
use vstd::prelude::*;
use vstd::utf8::*;
use vstd::string::{StringExecFns, StringSliceAdditionalSpecFns};
use crate::plugins::extra::gfm_autolink::{eq_ignore_ascii_case_at, spec_eq_ignore_ascii_case, spec_lower};
use crate::text::{chars_of, push_char, string_of_ascii_cut, string_of_chars, skip_white_space, trim_white_space_end,
    lemma_skip_ws_bounds, lemma_trim_end_ws_bounds};
use crate::plugins::extra::math::trimmed;

verus! {

broadcast use vstd::seq::group_seq_axioms;

/// How a note is drawn next to the nodes it belongs to.
#[derive(Clone, Copy, Debug, PartialEq, Eq, Structural)]
pub enum ActivityNoteModeLayout {
    Grouped,
    Single,
}

/// The side of its node a note sits on.
#[derive(Clone, Copy, Debug, PartialEq, Eq, Structural)]
pub enum NotePositionLayout {
    Left,
    Right,
}

/// Identification of a node of an old-style activity graph: its ids and the
/// source line of the first link that touches it.
#[derive(Clone, Debug)]
pub struct ActivityGraphvizNodeMeta {
    pub id: String,
    pub uid: String,
    pub qualified_name: String,
    pub source_line: Option<usize>,
}

/// A creole markup tag that stays open across a line break.
#[derive(Clone, Copy, Debug, PartialEq, Eq, Structural)]
pub enum TagKind {
    Bold,
    Italic,
    Underline,
    Strike,
    Back,
    Font,
    Color,
    Size,
}

/// The opening tag of a simple creole style, as it is carried over.
pub open spec fn simple_open(k: TagKind) -> Seq<char> {
    match k {
        TagKind::Bold => "<b>"@,
        TagKind::Italic => "<i>"@,
        TagKind::Underline => "<u>"@,
        _ => "<s>"@,
    }
}

/// The letter of a simple creole style (`b`, `i`, `u`, `s`).
pub open spec fn simple_letter(k: TagKind) -> u8 {
    match k {
        TagKind::Bold => 98,
        TagKind::Italic => 105,
        TagKind::Underline => 117,
        _ => 115,
    }
}

/// The name of a parameterised creole tag (`back`, `font`, `color`, `size`).
pub open spec fn param_name(k: TagKind) -> Seq<u8> {
    match k {
        TagKind::Back => seq![98u8, 97, 99, 107],
        TagKind::Font => seq![102u8, 111, 110, 116],
        TagKind::Color => seq![99u8, 111, 108, 111, 114],
        _ => seq![115u8, 105, 122, 101],
    }
}

/// `b[i..]` starts with `w`, ASCII case aside.
pub open spec fn starts_ci(b: Seq<u8>, i: int, w: Seq<u8>) -> bool {
    i + w.len() <= b.len() && spec_eq_ignore_ascii_case(b.subrange(i, i + w.len()), w)
}

pub open spec fn simple_open_bytes(k: TagKind) -> Seq<u8> {
    seq![60u8, simple_letter(k), 62]
}

pub open spec fn simple_close_bytes(k: TagKind) -> Seq<u8> {
    seq![60u8, 47, simple_letter(k), 62]
}

pub open spec fn param_open_bytes(k: TagKind) -> Seq<u8> {
    seq![60u8] + param_name(k) + seq![58u8]
}

pub open spec fn param_close_bytes(k: TagKind) -> Seq<u8> {
    seq![60u8, 47] + param_name(k) + seq![62u8]
}

/// The first `>` of `b` at or after `i`.
pub open spec fn first_gt(b: Seq<u8>, i: int) -> Option<int>
    decreases b.len() - i,
{
    if i < 0 || i >= b.len() {
        None
    } else if b[i] == 62 {
        Some(i)
    } else {
        first_gt(b, i + 1)
    }
}

/// What a creole tag at byte `i` does.
pub enum TagEvent {
    /// Opens a style; the tag's text and the byte after it.
    Open { kind: TagKind, text: Seq<char>, next: int },
    /// Closes a style; the byte after it.
    Close { kind: TagKind, next: int },
    /// No tag: the scan moves one byte on.
    Skip,
}

pub open spec fn simple_kinds() -> Seq<TagKind> {
    seq![TagKind::Bold, TagKind::Italic, TagKind::Underline, TagKind::Strike]
}

pub open spec fn param_kinds() -> Seq<TagKind> {
    seq![TagKind::Back, TagKind::Font, TagKind::Color, TagKind::Size]
}

/// The first simple style among `simple_kinds()[j..]` whose opening or
/// closing tag starts at `i` (the opening tag tried first for each style).
pub open spec fn simple_event(b: Seq<u8>, i: int, j: int) -> TagEvent
    decreases 4 - j,
{
    if j < 0 || j >= 4 {
        TagEvent::Skip
    } else {
        let k = simple_kinds()[j];
        if starts_ci(b, i, simple_open_bytes(k)) {
            TagEvent::Open { kind: k, text: simple_open(k), next: i + 3 }
        } else if starts_ci(b, i, simple_close_bytes(k)) {
            TagEvent::Close { kind: k, next: i + 4 }
        } else {
            simple_event(b, i, j + 1)
        }
    }
}

/// The first parameterised tag among `param_kinds()[j..]` that opens (up to
/// the next `>`) or closes at `i`.
pub open spec fn param_event(b: Seq<u8>, i: int, j: int) -> TagEvent
    decreases 4 - j,
{
    if j < 0 || j >= 4 {
        TagEvent::Skip
    } else {
        let k = param_kinds()[j];
        if starts_ci(b, i, param_open_bytes(k)) && first_gt(b, i) is Some {
            let e = first_gt(b, i)->0;
            TagEvent::Open { kind: k, text: decode_utf8(b.subrange(i, e + 1)), next: e + 1 }
        } else if starts_ci(b, i, param_close_bytes(k)) {
            TagEvent::Close { kind: k, next: i + param_close_bytes(k).len() }
        } else {
            param_event(b, i, j + 1)
        }
    }
}

/// The tag at byte `i`: a simple style first, then a parameterised one.
pub open spec fn tag_event(b: Seq<u8>, i: int) -> TagEvent {
    match simple_event(b, i, 0) {
        TagEvent::Skip => param_event(b, i, 0),
        e => e,
    }
}

/// `s` without its last entry of kind `k` (unchanged when there is none).
pub open spec fn remove_last_kind(s: Seq<(TagKind, Seq<char>)>, k: TagKind) -> Seq<(TagKind, Seq<char>)>
    decreases s.len(),
{
    if s.len() == 0 {
        s
    } else if s.last().0 == k {
        s.drop_last()
    } else {
        remove_last_kind(s.drop_last(), k).push(s.last())
    }
}

/// The styles still open after the scan of `b[i..]`, starting from `stack`.
pub open spec fn creole_scan(b: Seq<u8>, i: int, stack: Seq<(TagKind, Seq<char>)>) -> Seq<(TagKind, Seq<char>)>
    decreases b.len() - i,
{
    if i < 0 || i >= b.len() {
        stack
    } else {
        match tag_event(b, i) {
            TagEvent::Open { kind, text, next } => if i < next <= b.len() {
                creole_scan(b, next, stack.push((kind, text)))
            } else {
                stack
            },
            TagEvent::Close { kind, next } => if i < next <= b.len() {
                creole_scan(b, next, remove_last_kind(stack, kind))
            } else {
                stack
            },
            TagEvent::Skip => creole_scan(b, i + 1, stack),
        }
    }
}

/// The opening tags of a stack, concatenated.
pub open spec fn concat_tags(s: Seq<(TagKind, Seq<char>)>) -> Seq<char>
    decreases s.len(),
{
    if s.len() == 0 {
        Seq::empty()
    } else {
        concat_tags(s.drop_last()) + s.last().1
    }
}

/// The creole styles a line leaves open, as the concatenation of their
/// opening tags in the order they were opened.
pub open spec fn spec_unclosed_creole_prefix(line: Seq<u8>) -> Seq<char> {
    concat_tags(creole_scan(line, 0, Seq::empty()))
}

fn starts_with_ci(b: &[u8], i: usize, w: &[u8]) -> (r: bool)
    requires
        i <= b@.len(),
    ensures
        r == starts_ci(b@, i as int, w@),
{
    if b.len() - i < w.len() {
        return false;
    }
    eq_ignore_ascii_case_at(b, i, i + w.len(), w)
}

fn find_gt(b: &[u8], i: usize) -> (r: Option<usize>)
    ensures
        match r {
            Some(e) => first_gt(b@, i as int) == Some(e as int) && i <= e < b@.len() && b@[e as int] == 62,
            None => first_gt(b@, i as int) is None,
        },
{
    let mut k = i;
    while k < b.len()
        invariant
            i <= k,
            first_gt(b@, i as int) == first_gt(b@, k as int),
        decreases b@.len() - k,
    {
        if b[k] == 62 {
            return Some(k);
        }
        k += 1;
    }
    None
}

fn remove_last(stack: &mut Vec<(TagKind, String)>, k: TagKind)
    ensures
        stack_view(final(stack)@) == remove_last_kind(stack_view(old(stack)@), k),
{
    let ghost s0 = stack_view(stack@);
    let mut j = stack.len();
    while j > 0
        invariant
            stack_view(stack@) == s0,
            s0 == stack_view(old(stack)@),
            j <= stack@.len(),
            forall|q: int| j <= q < stack@.len() ==> (#[trigger] stack@[q]).0 != k,
        decreases j,
    {
        j -= 1;
        if stack[j].0 == k {
            let ghost before = stack@;
            stack.remove(j);
            proof {
                assert forall|q: int| j < q < stack_view(before).len() implies (#[trigger] stack_view(before)[q]).0 != k by {
                    assert(stack_view(before)[q].0 == before[q].0);
                }
                lemma_remove_last_kind_at(stack_view(before), k, j as int);
                assert(stack_view(stack@) =~= stack_view(before).take(j as int) + stack_view(before).skip(j + 1));
            }
            return;
        }
    }
    proof {
        assert forall|q: int| 0 <= q < s0.len() implies (#[trigger] s0[q]).0 != k by {
            assert(s0[q].0 == stack@[q].0);
        }
        lemma_remove_last_kind_absent(s0, k);
    }
}

pub open spec fn stack_view(s: Seq<(TagKind, String)>) -> Seq<(TagKind, Seq<char>)> {
    Seq::new(s.len(), |i: int| (s[i].0, s[i].1@))
}

proof fn lemma_remove_last_kind_absent(s: Seq<(TagKind, Seq<char>)>, k: TagKind)
    requires
        forall|q: int| 0 <= q < s.len() ==> (#[trigger] s[q]).0 != k,
    ensures
        remove_last_kind(s, k) == s,
    decreases s.len(),
{
    if s.len() > 0 {
        lemma_remove_last_kind_absent(s.drop_last(), k);
        assert(s.drop_last().push(s.last()) =~= s);
    }
}

proof fn lemma_remove_last_kind_at(s: Seq<(TagKind, Seq<char>)>, k: TagKind, j: int)
    requires
        0 <= j < s.len(),
        s[j].0 == k,
        forall|q: int| j < q < s.len() ==> (#[trigger] s[q]).0 != k,
    ensures
        remove_last_kind(s, k) == s.take(j) + s.skip(j + 1),
    decreases s.len(),
{
    if j == s.len() - 1 {
        assert(s.drop_last() =~= s.take(j) + s.skip(j + 1));
    } else {
        lemma_remove_last_kind_at(s.drop_last(), k, j);
        assert(s.drop_last().take(j) + s.drop_last().skip(j + 1) + seq![s.last()] =~= s.take(j) + s.skip(j + 1));
    }
}

/// A tag found at a position, with the text a push would keep.
pub enum Ev {
    Open(TagKind, String, usize),
    Close(TagKind, usize),
    Skip,
}

pub open spec fn ev_view(e: Ev) -> TagEvent {
    match e {
        Ev::Open(kind, text, next) => TagEvent::Open { kind, text: text@, next: next as int },
        Ev::Close(kind, next) => TagEvent::Close { kind, next: next as int },
        Ev::Skip => TagEvent::Skip,
    }
}

fn simple_event_at(b: &[u8], i: usize) -> (r: Ev)
    requires
        i < b@.len(),
    ensures
        ev_view(r) == simple_event(b@, i as int, 0),
        r matches Ev::Open(_, _, next) ==> i < next <= b@.len(),
        r matches Ev::Close(_, next) ==> i < next <= b@.len(),
{
    let _len = b.len();
    let letters: [u8; 4] = [98, 105, 117, 115];
    let kinds: [TagKind; 4] = [TagKind::Bold, TagKind::Italic, TagKind::Underline, TagKind::Strike];
    let mut j: usize = 0;
    while j < 4
        invariant
            i < b@.len(),
            b@.len() <= usize::MAX,
            j <= 4,
            letters@ == seq![98u8, 105, 117, 115],
            kinds@ == simple_kinds(),
            simple_event(b@, i as int, 0) == simple_event(b@, i as int, j as int),
        decreases 4 - j,
    {
        let open_w: [u8; 3] = [60, letters[j], 62];
        let close_w: [u8; 4] = [60, 47, letters[j], 62];
        let ghost k = simple_kinds()[j as int];
        proof {
            assert(simple_letter(k) == letters@[j as int]);
            assert(open_w@ =~= simple_open_bytes(k));
            assert(close_w@ =~= simple_close_bytes(k));
            assert(open_w@.len() == 3);
            assert(close_w@.len() == 4);
        }
        if starts_with_ci(b, i, &open_w) {
            let text = if j == 0 {
                "<b>".to_owned()
            } else if j == 1 {
                "<i>".to_owned()
            } else if j == 2 {
                "<u>".to_owned()
            } else {
                "<s>".to_owned()
            };
            return Ev::Open(kinds[j], text, i + 3);
        }
        if starts_with_ci(b, i, &close_w) {
            return Ev::Close(kinds[j], i + 4);
        }
        j += 1;
    }
    Ev::Skip
}

fn param_event_at(b: &[u8], i: usize) -> (r: Ev)
    requires
        i < b@.len(),
        valid_utf8(b@),
    ensures
        ev_view(r) == param_event(b@, i as int, 0),
        r matches Ev::Open(_, _, next) ==> i < next <= b@.len(),
        r matches Ev::Close(_, next) ==> i < next <= b@.len(),
{
    let _len = b.len();
    let kinds: [TagKind; 4] = [TagKind::Back, TagKind::Font, TagKind::Color, TagKind::Size];
    let back: [u8; 4] = [98, 97, 99, 107];
    let font: [u8; 4] = [102, 111, 110, 116];
    let color: [u8; 5] = [99, 111, 108, 111, 114];
    let size: [u8; 4] = [115, 105, 122, 101];
    assert(back@ =~= param_name(TagKind::Back));
    assert(font@ =~= param_name(TagKind::Font));
    assert(color@ =~= param_name(TagKind::Color));
    assert(size@ =~= param_name(TagKind::Size));
    let mut j: usize = 0;
    while j < 4
        invariant
            i < b@.len(),
            b@.len() <= usize::MAX,
            valid_utf8(b@),
            j <= 4,
            kinds@ == param_kinds(),
            back@ == param_name(TagKind::Back),
            font@ == param_name(TagKind::Font),
            color@ == param_name(TagKind::Color),
            size@ == param_name(TagKind::Size),
            param_event(b@, i as int, 0) == param_event(b@, i as int, j as int),
        decreases 4 - j,
    {
        let ghost k = param_kinds()[j as int];
        let name: &[u8] = if j == 0 {
            &back
        } else if j == 1 {
            &font
        } else if j == 2 {
            &color
        } else {
            &size
        };
        assert(name@ == param_name(k));
        let mut open_w: Vec<u8> = Vec::new();
        open_w.push(60);
        let mut close_w: Vec<u8> = Vec::new();
        close_w.push(60);
        close_w.push(47);
        let mut q: usize = 0;
        while q < name.len()
            invariant
                q <= name@.len(),
                open_w@ == seq![60u8] + name@.take(q as int),
                close_w@ == seq![60u8, 47] + name@.take(q as int),
            decreases name@.len() - q,
        {
            open_w.push(name[q]);
            close_w.push(name[q]);
            proof {
                assert(name@.take(q + 1) =~= name@.take(q as int).push(name@[q as int]));
            }
            q += 1;
        }
        open_w.push(58);
        close_w.push(62);
        proof {
            assert(name@.take(name@.len() as int) =~= name@);
            assert(open_w@ =~= param_open_bytes(k));
            assert(close_w@ =~= param_close_bytes(k));
        }
        if starts_with_ci(b, i, &open_w) {
            let g = find_gt(b, i);
            if let Some(e) = g {
                proof {
                    let sub = b@.subrange(i as int, i + open_w@.len());
                    assert(spec_lower(sub[0]) == spec_lower(open_w@[0]));
                    assert(sub[0] == b@[i as int]);
                    assert(b@[i as int] == 60);
                }
                let text = string_of_ascii_cut(b, i, e + 1);
                proof {
                    encode_utf8_decode_utf8(text@);
                }
                return Ev::Open(kinds[j], text, e + 1);
            }
        }
        if starts_with_ci(b, i, &close_w) {
            return Ev::Close(kinds[j], i + close_w.len());
        }
        j += 1;
    }
    Ev::Skip
}

/// The creole styles (`<b>`, `<i>`, `<u>`, `<s>`, `<back:…>`, `<font:…>`,
/// `<color:…>`, `<size:…>`) that `line` opens and does not close, as the
/// concatenation of their opening tags, so that a wrapped continuation line
/// can reopen them. Tags are matched regardless of ASCII case; a closing tag
/// closes the most recent open tag of its kind.
pub fn collect_unclosed_creole_prefix(line: &str) -> (r: String)
    ensures
        r@ == spec_unclosed_creole_prefix(line.spec_bytes()),
{
    let b = line.as_bytes();
    let n = b.len();
    let ghost bs = b@;
    proof {
        encode_utf8_valid_utf8(line@);
        assert(stack_view(Seq::<(TagKind, String)>::empty()) =~= Seq::<(TagKind, Seq<char>)>::empty());
    }
    let mut stack: Vec<(TagKind, String)> = Vec::new();
    let mut i: usize = 0;
    while i < n
        invariant
            b@ == bs,
            bs == line.spec_bytes(),
            valid_utf8(bs),
            n == bs.len(),
            i <= n,
            creole_scan(bs, i as int, stack_view(stack@)) == creole_scan(bs, 0, Seq::empty()),
        decreases n - i,
    {
        let mut ev = simple_event_at(b, i);
        if let Ev::Skip = ev {
            ev = param_event_at(b, i);
        }
        assert(ev_view(ev) == tag_event(bs, i as int));
        match ev {
            Ev::Open(kind, text, next) => {
                let ghost before = stack_view(stack@);
                let ghost t = text@;
                stack.push((kind, text));
                proof {
                    assert(stack_view(stack@) =~= before.push((kind, t)));
                }
                i = next;
            },
            Ev::Close(kind, next) => {
                remove_last(&mut stack, kind);
                i = next;
            },
            Ev::Skip => {
                i = i + 1;
            },
        }
    }
    let mut out = String::new();
    let mut k: usize = 0;
    while k < stack.len()
        invariant
            k <= stack@.len(),
            out@ == concat_tags(stack_view(stack@).take(k as int)),
        decreases stack@.len() - k,
    {
        proof {
            assert(stack_view(stack@).take(k + 1).drop_last() =~= stack_view(stack@).take(k as int));
        }
        out.append(stack[k].1.as_str());
        k += 1;
    }
    assert(stack_view(stack@).take(stack@.len() as int) =~= stack_view(stack@));
    out
}

/// The label of a node as a creole table: one column of rows, or several
/// columns.
pub enum ActivityTableKind {
    SingleColumn { rows: Vec<String> },
    MultiColumn,
}

/// A table kind as plain values.
pub enum TableKindSpec {
    SingleColumn { rows: Seq<Seq<char>> },
    MultiColumn,
}

impl View for ActivityTableKind {
    type V = TableKindSpec;

    open spec fn view(&self) -> TableKindSpec {
        match self {
            ActivityTableKind::SingleColumn { rows } => TableKindSpec::SingleColumn {
                rows: Seq::new(rows@.len(), |i: int| rows@[i]@),
            },
            ActivityTableKind::MultiColumn => TableKindSpec::MultiColumn,
        }
    }
}

/// What one line of a label is, for table detection.
pub enum LineClass {
    Blank,
    NonTable,
    Multi,
    Single(Seq<char>),
}

/// `v` holds the character `c`.
pub open spec fn has_char(v: Seq<char>, c: char) -> bool {
    exists|k: int| 0 <= k < v.len() && v[k] == c
}

/// A line is blank, a table row of one cell (with its trimmed content), a
/// table row of several cells, or something else. A table row, once
/// trimmed, starts and ends with `|` and has something in between.
pub open spec fn classify_line(l: Seq<char>) -> LineClass {
    let t = trimmed(l);
    if t.len() == 0 {
        LineClass::Blank
    } else if !(t[0] == '|' && t[t.len() - 1] == '|' && t.len() >= 3) {
        LineClass::NonTable
    } else {
        let inner = t.subrange(1, t.len() - 1);
        if has_char(inner, '|') {
            LineClass::Multi
        } else {
            LineClass::Single(trimmed(inner))
        }
    }
}

/// The one-cell rows among `ls`, in order.
pub open spec fn single_rows(ls: Seq<Seq<char>>) -> Seq<Seq<char>>
    decreases ls.len(),
{
    if ls.len() == 0 {
        Seq::empty()
    } else {
        single_rows(ls.drop_last()) + match classify_line(ls.last()) {
            LineClass::Single(r) => seq![r],
            _ => Seq::empty(),
        }
    }
}

pub open spec fn some_line(ls: Seq<Seq<char>>, f: spec_fn(LineClass) -> bool) -> bool {
    exists|i: int| 0 <= i < ls.len() && f(classify_line(ls[i]))
}

/// The table kind of a label's lines: several columns when any row has
/// several cells; one column when every non-blank line is a one-cell row;
/// no table otherwise.
pub open spec fn spec_classify_table(ls: Seq<Seq<char>>) -> Option<TableKindSpec> {
    let table = some_line(ls, |c: LineClass| c is Single || c is Multi);
    let multi = some_line(ls, |c: LineClass| c is Multi);
    let other = some_line(ls, |c: LineClass| c is NonTable);
    if !table {
        None
    } else if multi {
        Some(TableKindSpec::MultiColumn)
    } else if other {
        None
    } else {
        Some(TableKindSpec::SingleColumn { rows: single_rows(ls) })
    }
}

pub open spec fn strs_view(lines: Seq<&str>) -> Seq<Seq<char>> {
    Seq::new(lines.len(), |i: int| lines[i]@)
}

/// Trimmed bounds of a line.
fn trim_bounds(v: &[char]) -> (r: (usize, usize))
    ensures
        r.0 <= r.1 <= v@.len(),
        trimmed(v@) == v@.subrange(r.0 as int, r.1 as int),
{
    let n = v.len();
    let a = skip_white_space(v, 0);
    let b = trim_white_space_end(v, n);
    proof {
        lemma_skip_ws_bounds(v@, 0);
        lemma_trim_end_ws_bounds(v@, n as int);
    }
    if a < b {
        (a, b)
    } else {
        assert(v@.subrange(a as int, a as int) =~= Seq::<char>::empty());
        (a, a)
    }
}

fn classify_line_exec(line: &str) -> (r: (u8, String))
    ensures
        r.0 == 0 ==> classify_line(line@) is Blank,
        r.0 == 1 ==> classify_line(line@) is NonTable,
        r.0 == 2 ==> classify_line(line@) is Multi,
        r.0 == 3 ==> classify_line(line@) == LineClass::Single(r.1@),
        r.0 <= 3,
{
    let v = chars_of(line);
    let (a, b) = trim_bounds(&v);
    let ghost t = v@.subrange(a as int, b as int);
    if a == b {
        return (0, String::new());
    }
    assert(t.len() > 0 ==> t[0] == v@[a as int] && t[t.len() - 1] == v@[b - 1]);
    if !(v[a] == '|' && v[b - 1] == '|' && b - a >= 3) {
        return (1, String::new());
    }
    let mut k = a + 1;
    while k < b - 1
        invariant
            v@ == line@,
            t == v@.subrange(a as int, b as int),
            trimmed(v@) == t,
            t.len() >= 3 && t[0] == '|' && t[t.len() - 1] == '|',
            a + 1 <= k <= b - 1,
            b <= v@.len(),
            forall|q: int| a + 1 <= q < k ==> v@[q] != '|',
        decreases b - 1 - k,
    {
        if v[k] == '|' {
            proof {
                let inner = t.subrange(1, t.len() - 1);
                assert(inner[k - a - 1] == '|');
                assert(has_char(inner, '|'));
                assert(trimmed(line@) == t);
            }
            return (2, String::new());
        }
        k += 1;
    }
    let ghost inner = t.subrange(1, t.len() - 1);
    assert(inner =~= v@.subrange(a + 1, b - 1));
    assert forall|q: int| 0 <= q < inner.len() implies inner[q] != '|' by {
        assert(inner[q] == v@[q + a + 1]);
    }
    let w = string_of_chars(&v, a + 1, b - 1);
    let wv = chars_of(w.as_str());
    let (c, d) = trim_bounds(&wv);
    (3, string_of_chars(&wv, c, d))
}

/// Classify a label's lines as a creole table: several columns when any row
/// has several cells, one column (with the trimmed cell of each row) when
/// every non-blank line is a one-cell row, no table otherwise.
pub fn classify_activity_table_lines(lines: &[&str]) -> (r: Option<ActivityTableKind>)
    ensures
        match spec_classify_table(strs_view(lines@)) {
            Some(k) => r matches Some(t) && t@ == k,
            None => r is None,
        },
{
    let ghost ls = strs_view(lines@);
    let mut saw_table = false;
    let mut saw_multi = false;
    let mut saw_other = false;
    let mut rows: Vec<String> = Vec::new();
    let mut i: usize = 0;
    while i < lines.len()
        invariant
            ls == strs_view(lines@),
            i <= lines@.len(),
            saw_table == some_line(ls.take(i as int), |c: LineClass| c is Single || c is Multi),
            saw_multi == some_line(ls.take(i as int), |c: LineClass| c is Multi),
            saw_other == some_line(ls.take(i as int), |c: LineClass| c is NonTable),
            Seq::new(rows@.len(), |k: int| rows@[k]@) == single_rows(ls.take(i as int)),
        decreases lines@.len() - i,
    {
        let ghost pre = ls.take(i as int);
        let ghost post = ls.take(i + 1);
        let ghost old_rows = rows@;
        let (kind, row) = classify_line_exec(lines[i]);
        proof {
            assert(post.drop_last() =~= pre);
            assert(post.last() == ls[i as int]);
            assert(ls[i as int] == lines@[i as int]@);
            assert forall|f: spec_fn(LineClass) -> bool| some_line(post, f) == (some_line(pre, f) || f(classify_line(ls[i as int]))) by {
                if some_line(pre, f) {
                    let q = choose|q: int| 0 <= q < pre.len() && f(classify_line(pre[q]));
                    assert(post[q] == pre[q]);
                }
                if f(classify_line(ls[i as int])) {
                    assert(post[i as int] == ls[i as int]);
                }
                if some_line(post, f) {
                    let q = choose|q: int| 0 <= q < post.len() && f(classify_line(post[q]));
                    if q < i {
                        assert(pre[q] == post[q]);
                    }
                }
            }
        }
        if kind == 1 {
            saw_other = true;
        } else if kind == 2 {
            saw_table = true;
            saw_multi = true;
        } else if kind == 3 {
            saw_table = true;
            rows.push(row);
        }
        proof {
            let rv = Seq::new(rows@.len(), |k: int| rows@[k]@);
            if kind == 3 {
                assert(rv =~= Seq::new(old_rows.len(), |k: int| old_rows[k]@).push(row@));
            } else {
                assert(rv =~= Seq::new(old_rows.len(), |k: int| old_rows[k]@));
            }
        }
        i += 1;
    }
    assert(ls.take(lines@.len() as int) =~= ls);
    if !saw_table {
        return None;
    }
    if saw_multi {
        return Some(ActivityTableKind::MultiColumn);
    }
    if saw_other {
        return None;
    }
    Some(ActivityTableKind::SingleColumn { rows })
}

/// The index of the first swimlane named `name`.
pub open spec fn first_lane(lanes: Seq<String>, name: Seq<char>, i: int) -> Option<int>
    decreases lanes.len() - i,
{
    if i < 0 || i >= lanes.len() {
        None
    } else if lanes[i]@ == name {
        Some(i)
    } else {
        first_lane(lanes, name, i + 1)
    }
}

/// The index of the swimlane named `name`: the first with that name, or 0
/// when there is none.
pub fn resolve_swimlane_index(swimlanes: &[String], name: &str) -> (r: usize)
    ensures
        r == match first_lane(swimlanes@, name@, 0) {
            Some(i) => i as usize,
            None => 0usize,
        },
{
    let key = name.to_owned();
    let mut i: usize = 0;
    while i < swimlanes.len()
        invariant
            key@ == name@,
            i <= swimlanes@.len(),
            first_lane(swimlanes@, name@, 0) == first_lane(swimlanes@, name@, i as int),
        decreases swimlanes@.len() - i,
    {
        if swimlanes[i] == key {
            return i;
        }
        i += 1;
    }
    0
}

/// `v[i..]` with each `\n` (a backslash then `n`) replaced by U+E100.
pub open spec fn mark_breaks(v: Seq<char>, i: int) -> Seq<char>
    decreases v.len() - i,
{
    if i < 0 || i >= v.len() {
        Seq::empty()
    } else if v[i] == '\\' && i + 1 < v.len() && v[i + 1] == 'n' {
        seq!['\u{E100}'] + mark_breaks(v, i + 2)
    } else {
        seq![v[i]] + mark_breaks(v, i + 1)
    }
}

/// The pieces of `w[i..]` split at each `c`, after the pieces `acc` and with
/// the current piece starting at `start`.
pub open spec fn split_from(w: Seq<char>, c: char, i: int, start: int, acc: Seq<Seq<char>>) -> Seq<Seq<char>>
    decreases w.len() - i,
{
    if i < 0 || i >= w.len() {
        acc.push(w.subrange(start, w.len() as int))
    } else if w[i] == c {
        split_from(w, c, i + 1, i + 1, acc.push(w.subrange(start, i)))
    } else {
        split_from(w, c, i + 1, start, acc)
    }
}

/// The lines of a label: it is split at each `\n` escape (and at each
/// U+E100, the mark that stands for one); a trailing break gives a trailing
/// empty line.
pub open spec fn spec_split_label_lines(text: Seq<char>) -> Seq<Seq<char>> {
    split_from(mark_breaks(text, 0), '\u{E100}', 0, 0, Seq::empty())
}

/// Split a label into its lines at the `\n` escapes.
pub fn split_label_lines(text: &str) -> (r: Vec<String>)
    ensures
        Seq::new(r@.len(), |i: int| r@[i]@) == spec_split_label_lines(text@),
{
    let v = chars_of(text);
    let n = v.len();
    let mut w: Vec<char> = Vec::new();
    let mut i: usize = 0;
    while i < n
        invariant
            v@ == text@,
            n == v@.len(),
            i <= n + 1,
            w@ + mark_breaks(v@, i as int) == mark_breaks(v@, 0),
        decreases n + 1 - i,
    {
        let ghost before = w@;
        if v[i] == '\\' && i + 1 < n && v[i + 1] == 'n' {
            w.push('\u{E100}');
            assert(w@ + mark_breaks(v@, i + 2) =~= before + (seq!['\u{E100}'] + mark_breaks(v@, i + 2)));
            i += 2;
        } else {
            w.push(v[i]);
            assert(w@ + mark_breaks(v@, i + 1) =~= before + (seq![v@[i as int]] + mark_breaks(v@, i + 1)));
            i += 1;
        }
    }
    assert(w@ + mark_breaks(v@, i as int) =~= w@);
    let m = w.len();
    let mut out: Vec<String> = Vec::new();
    assert(Seq::new(out@.len(), |q: int| out@[q]@) =~= Seq::<Seq<char>>::empty());
    let mut start: usize = 0;
    let mut k: usize = 0;
    while k < m
        invariant
            m == w@.len(),
            start <= k <= m,
            split_from(w@, '\u{E100}', k as int, start as int, Seq::new(out@.len(), |q: int| out@[q]@))
                == split_from(w@, '\u{E100}', 0, 0, Seq::empty()),
        decreases m - k,
    {
        if w[k] == '\u{E100}' {
            let ghost before = out@;
            let piece = string_of_chars(&w, start, k);
            out.push(piece);
            proof {
                assert(Seq::new(out@.len(), |q: int| out@[q]@) =~= Seq::new(before.len(), |q: int| before[q]@).push(
                    w@.subrange(start as int, k as int),
                ));
            }
            start = k + 1;
        }
        k += 1;
    }
    let ghost before = out@;
    let piece = string_of_chars(&w, start, m);
    out.push(piece);
    proof {
        assert(Seq::new(out@.len(), |q: int| out@[q]@) =~= Seq::new(before.len(), |q: int| before[q]@).push(
            w@.subrange(start as int, m as int),
        ));
    }
    out
}

/// The partition frames to draw right before node `idx`: every frame among
/// the first `upto` partitions whose first inner node is `idx`, the one
/// recorded last (the outer one) first.
pub open spec fn frames_for(ranges: Seq<(usize, usize)>, idx: usize, upto: int) -> Seq<usize>
    decreases upto,
{
    if upto <= 0 || upto > ranges.len() {
        Seq::empty()
    } else {
        (if ranges[upto - 1].0 == idx {
            seq![ranges[upto - 1].1]
        } else {
            Seq::empty()
        }) + frames_for(ranges, idx, upto - 1)
    }
}

/// `idx` is the node of a partition frame.
pub open spec fn is_part(ranges: Seq<(usize, usize)>, idx: usize) -> bool {
    exists|k: int| 0 <= k < ranges.len() && ranges[k].1 == idx
}

/// What is drawn for node `idx` of the base order: the frames it opens, then
/// the node itself unless it is a frame (frames are drawn where they open).
pub open spec fn render_step(ranges: Seq<(usize, usize)>, idx: usize) -> Seq<usize> {
    frames_for(ranges, idx, ranges.len() as int) + if is_part(ranges, idx) {
        Seq::empty()
    } else {
        seq![idx]
    }
}

/// The render order: the base order, with each partition frame moved to
/// right before its first inner node.
pub open spec fn spec_partition_render_order(base: Seq<usize>, ranges: Seq<(usize, usize)>) -> Seq<usize>
    decreases base.len(),
{
    if base.len() == 0 {
        Seq::empty()
    } else {
        spec_partition_render_order(base.drop_last(), ranges) + render_step(ranges, base.last())
    }
}

/// Move each partition frame (`(first inner node, frame node)` in
/// `partition_ranges`) to right before its first inner node in the render
/// order, so that frames are drawn behind their content; frames that open at
/// the same node come outer (recorded later) first.
///
/// The frames are looked up by scanning `partition_ranges` rather than
/// through a map from first inner node to frame: such a map keeps one frame
/// per node and would drop the others, and the order is stated over the
/// recorded list itself.
pub fn apply_partition_render_order(base: Vec<usize>, partition_ranges: &[(usize, usize)]) -> (r: Vec<usize>)
    ensures
        r@ == spec_partition_render_order(base@, partition_ranges@),
{
    let ghost ranges = partition_ranges@;
    let mut result: Vec<usize> = Vec::new();
    let mut i: usize = 0;
    while i < base.len()
        invariant
            ranges == partition_ranges@,
            i <= base@.len(),
            result@ == spec_partition_render_order(base@.take(i as int), ranges),
        decreases base@.len() - i,
    {
        let idx = base[i];
        let ghost before = result@;
        let mut j = partition_ranges.len();
        while j > 0
            invariant
                ranges == partition_ranges@,
                j <= ranges.len(),
                result@ + frames_for(ranges, idx, j as int) == before + frames_for(ranges, idx, ranges.len() as int),
            decreases j,
        {
            let ghost r0 = result@;
            if partition_ranges[j - 1].0 == idx {
                result.push(partition_ranges[j - 1].1);
            }
            proof {
                let head = if ranges[j - 1].0 == idx {
                    seq![ranges[j - 1].1]
                } else {
                    Seq::<usize>::empty()
                };
                assert(result@ == r0 + head);
                assert(frames_for(ranges, idx, j as int) == head + frames_for(ranges, idx, j - 1));
                assert(result@ + frames_for(ranges, idx, j - 1) =~= r0 + frames_for(ranges, idx, j as int));
            }
            j -= 1;
        }
        proof {
            assert(result@ =~= before + frames_for(ranges, idx, ranges.len() as int));
        }
        let mut in_parts = false;
        let mut k: usize = 0;
        while k < partition_ranges.len()
            invariant
                ranges == partition_ranges@,
                k <= ranges.len(),
                in_parts == exists|q: int| 0 <= q < k && ranges[q].1 == idx,
            decreases ranges.len() - k,
        {
            if partition_ranges[k].1 == idx {
                in_parts = true;
            }
            k += 1;
        }
        if !in_parts {
            result.push(idx);
        }
        proof {
            assert(base@.take(i + 1).drop_last() =~= base@.take(i as int));
            assert(base@.take(i + 1).last() == idx);
            assert(result@ =~= before + render_step(ranges, idx));
        }
        i += 1;
    }
    assert(base@.take(base@.len() as int) =~= base@);
    result
}

/// How often `v` occurs in `s`.
pub open spec fn occ(s: Seq<usize>, v: usize) -> nat
    decreases s.len(),
{
    if s.len() == 0 {
        0
    } else {
        occ(s.drop_last(), v) + if s.last() == v {
            1nat
        } else {
            0nat
        }
    }
}

proof fn lemma_occ_concat(a: Seq<usize>, b: Seq<usize>, v: usize)
    ensures
        occ(a + b, v) == occ(a, v) + occ(b, v),
    decreases b.len(),
{
    if b.len() == 0 {
        assert(a + b =~= a);
    } else {
        lemma_occ_concat(a, b.drop_last(), v);
        assert((a + b).drop_last() =~= a + b.drop_last());
    }
}

proof fn lemma_occ_contains(s: Seq<usize>, v: usize)
    requires
        s.contains(v),
    ensures
        occ(s, v) >= 1,
    decreases s.len(),
{
    if s.last() != v {
        let w = choose|w: int| 0 <= w < s.len() && s[w] == v;
        assert(s.drop_last()[w] == v);
        lemma_occ_contains(s.drop_last(), v);
    }
}

/// No two partitions share a frame node.
pub open spec fn frames_distinct(ranges: Seq<(usize, usize)>) -> bool {
    forall|a: int, b: int| 0 <= a < b < ranges.len() ==> #[trigger] ranges[a].1 != #[trigger] ranges[b].1
}

proof fn lemma_occ_frames(ranges: Seq<(usize, usize)>, idx: usize, v: usize, upto: int)
    requires
        frames_distinct(ranges),
        0 <= upto <= ranges.len(),
    ensures
        occ(frames_for(ranges, idx, upto), v) == if exists|k: int| 0 <= k < upto && ranges[k].0 == idx && ranges[k].1 == v {
            1nat
        } else {
            0nat
        },
    decreases upto,
{
    if upto > 0 {
        lemma_occ_frames(ranges, idx, v, upto - 1);
        let head = if ranges[upto - 1].0 == idx {
            seq![ranges[upto - 1].1]
        } else {
            Seq::<usize>::empty()
        };
        lemma_occ_concat(head, frames_for(ranges, idx, upto - 1), v);
        assert(occ(seq![ranges[upto - 1].1], v) == if ranges[upto - 1].1 == v { 1nat } else { 0nat }) by {
            assert(seq![ranges[upto - 1].1].drop_last() =~= Seq::<usize>::empty());
        }
        if ranges[upto - 1].0 == idx && ranges[upto - 1].1 == v {
            assert forall|k: int| 0 <= k < upto - 1 implies !(ranges[k].0 == idx && ranges[k].1 == v) by {
                assert(ranges[k].1 != ranges[upto - 1].1);
            }
        }
    }
}

proof fn lemma_occ_render(base: Seq<usize>, ranges: Seq<(usize, usize)>, v: usize)
    requires
        frames_distinct(ranges),
    ensures
        !is_part(ranges, v) ==> occ(spec_partition_render_order(base, ranges), v) == occ(base, v),
        forall|k: int|
            0 <= k < ranges.len() && ranges[k].1 == v ==> occ(spec_partition_render_order(base, ranges), v) == occ(
                base,
                #[trigger] ranges[k].0,
            ),
    decreases base.len(),
{
    if base.len() == 0 {
    } else {
        let last = base.last();
        lemma_occ_render(base.drop_last(), ranges, v);
        let fr = frames_for(ranges, last, ranges.len() as int);
        let tail: Seq<usize> = if is_part(ranges, last) {
            Seq::empty()
        } else {
            seq![last]
        };
        lemma_occ_concat(spec_partition_render_order(base.drop_last(), ranges), fr + tail, v);
        lemma_occ_concat(fr, tail, v);
        lemma_occ_frames(ranges, last, v, ranges.len() as int);
        assert(occ(seq![last], v) == if last == v { 1nat } else { 0nat }) by {
            assert(seq![last].drop_last() =~= Seq::<usize>::empty());
            assert(occ(Seq::<usize>::empty(), v) == 0);
            assert(seq![last].last() == last);
        }
        assert forall|k: int|
            0 <= k < ranges.len() && ranges[k].1 == v implies occ(spec_partition_render_order(base, ranges), v)
                == occ(base, #[trigger] ranges[k].0) by {
            if exists|q: int| 0 <= q < ranges.len() && ranges[q].0 == last && ranges[q].1 == v {
                let q = choose|q: int| 0 <= q < ranges.len() && ranges[q].0 == last && ranges[q].1 == v;
                if q != k {
                    if q < k {
                        assert(ranges[q].1 != ranges[k].1);
                    } else {
                        assert(ranges[k].1 != ranges[q].1);
                    }
                }
            }
        }
    }
}

/// Moving the frames only reorders the base order: when no two partitions
/// share a frame node, no node occurs twice in the base order, and each
/// partition's frame and first inner node occur in it, every node occurs in
/// the render order exactly as often as in the base order.
pub proof fn lemma_partition_render_order_permutes(base: Seq<usize>, ranges: Seq<(usize, usize)>)
    requires
        frames_distinct(ranges),
        forall|x: usize| occ(base, x) <= 1,
        forall|k: int| 0 <= k < ranges.len() ==> base.contains(#[trigger] ranges[k].0) && base.contains(ranges[k].1),
    ensures
        forall|v: usize| #[trigger] occ(spec_partition_render_order(base, ranges), v) == occ(base, v),
{
    assert forall|v: usize| #[trigger] occ(spec_partition_render_order(base, ranges), v) == occ(base, v) by {
        lemma_occ_render(base, ranges, v);
        if is_part(ranges, v) {
            let k = choose|k: int| 0 <= k < ranges.len() && ranges[k].1 == v;
            assert(base.contains(ranges[k].0));
            lemma_occ_contains(base, ranges[k].0);
            lemma_occ_contains(base, v);
            assert(occ(base, ranges[k].0) <= 1);
            assert(occ(base, v) <= 1);
        }
    }
}

proof fn lemma_no_tag_without_lt(b: Seq<u8>, i: int)
    requires
        0 <= i < b.len(),
        b[i] != 60,
    ensures
        tag_event(b, i) is Skip,
{
    assert forall|w: Seq<u8>| w.len() > 0 && w[0] == 60 implies !starts_ci(b, i, w) by {
        if starts_ci(b, i, w) {
            assert(b.subrange(i, i + w.len())[0] == b[i]);
        }
    }
    assert(simple_open_bytes(TagKind::Bold)[0] == 60);
    assert(simple_close_bytes(TagKind::Bold)[0] == 60);
    assert(simple_open_bytes(TagKind::Italic)[0] == 60);
    assert(simple_close_bytes(TagKind::Italic)[0] == 60);
    assert(simple_open_bytes(TagKind::Underline)[0] == 60);
    assert(simple_close_bytes(TagKind::Underline)[0] == 60);
    assert(simple_open_bytes(TagKind::Strike)[0] == 60);
    assert(simple_close_bytes(TagKind::Strike)[0] == 60);
    assert(param_open_bytes(TagKind::Back)[0] == 60);
    assert(param_close_bytes(TagKind::Back)[0] == 60);
    assert(param_open_bytes(TagKind::Font)[0] == 60);
    assert(param_close_bytes(TagKind::Font)[0] == 60);
    assert(param_open_bytes(TagKind::Color)[0] == 60);
    assert(param_close_bytes(TagKind::Color)[0] == 60);
    assert(param_open_bytes(TagKind::Size)[0] == 60);
    assert(param_close_bytes(TagKind::Size)[0] == 60);
    reveal_with_fuel(simple_event, 5);
    reveal_with_fuel(param_event, 5);
}

proof fn lemma_creole_scan_plain(b: Seq<u8>, i: int, stack: Seq<(TagKind, Seq<char>)>)
    requires
        0 <= i <= b.len(),
        forall|k: int| 0 <= k < b.len() ==> b[k] != 60,
    ensures
        creole_scan(b, i, stack) == stack,
    decreases b.len() - i,
{
    if i < b.len() {
        lemma_no_tag_without_lt(b, i);
        lemma_creole_scan_plain(b, i + 1, stack);
    }
}

/// A line without `<` leaves no creole style open.
pub proof fn lemma_unclosed_creole_prefix_plain(line: Seq<u8>)
    requires
        forall|k: int| 0 <= k < line.len() ==> line[k] != 60,
    ensures
        spec_unclosed_creole_prefix(line) == Seq::<char>::empty(),
{
    lemma_creole_scan_plain(line, 0, Seq::empty());
}

proof fn lemma_mark_breaks_plain(v: Seq<char>, i: int)
    requires
        0 <= i <= v.len(),
        forall|k: int| 0 <= k < v.len() ==> v[k] != '\\',
    ensures
        mark_breaks(v, i) == v.subrange(i, v.len() as int),
    decreases v.len() - i,
{
    if i < v.len() {
        lemma_mark_breaks_plain(v, i + 1);
        assert(seq![v[i]] + v.subrange(i + 1, v.len() as int) =~= v.subrange(i, v.len() as int));
    } else {
        assert(v.subrange(i, v.len() as int) =~= Seq::<char>::empty());
    }
}

proof fn lemma_split_from_plain(w: Seq<char>, c: char, i: int, start: int, acc: Seq<Seq<char>>)
    requires
        0 <= start <= i <= w.len(),
        forall|k: int| 0 <= k < w.len() ==> w[k] != c,
    ensures
        split_from(w, c, i, start, acc) == acc.push(w.subrange(start, w.len() as int)),
    decreases w.len() - i,
{
    if i < w.len() {
        lemma_split_from_plain(w, c, i + 1, start, acc);
    }
}

/// A label with no backslash and no U+E100 is a single line: itself.
pub proof fn lemma_split_label_single_line(text: Seq<char>)
    requires
        forall|k: int| 0 <= k < text.len() ==> text[k] != '\\' && text[k] != '\u{E100}',
    ensures
        spec_split_label_lines(text) == seq![text],
{
    lemma_mark_breaks_plain(text, 0);
    assert(text.subrange(0, text.len() as int) =~= text);
    lemma_split_from_plain(text, '\u{E100}', 0, 0, Seq::empty());
    assert(Seq::<Seq<char>>::empty().push(text) =~= seq![text]);
}

/// An event of an activity diagram, as the partition flattening sees it: a
/// partition with its inner events, the markers that open and close a
/// flattened partition, or any other event (by handle).
#[derive(Debug)]
pub enum ActivityEvent {
    Partition { name: String, events: Vec<ActivityEvent> },
    PartitionStart { name: String },
    PartitionEnd,
    Other(usize),
}

/// The events with each partition replaced by its start marker, its
/// flattened inner events and its end marker.
pub open spec fn spec_flatten_events(es: Seq<ActivityEvent>) -> Seq<ActivityEvent>
    decreases es,
{
    if es.len() == 0 {
        Seq::empty()
    } else {
        let last = es.last();
        let prefix = spec_flatten_events(es.drop_last());
        match last {
            ActivityEvent::Partition { name, events } => {
                prefix.push(ActivityEvent::PartitionStart { name }) + spec_flatten_events(events@).push(
                    ActivityEvent::PartitionEnd,
                )
            },
            e => prefix.push(e),
        }
    }
}

/// Flatten nested partitions into start marker, inner events, end marker,
/// so that the layout handles them in one pass.
pub fn flatten_events(events: &[ActivityEvent]) -> (r: Vec<ActivityEvent>)
    ensures
        r@ == spec_flatten_events(events@),
    decreases events@,
{
    let mut result: Vec<ActivityEvent> = Vec::new();
    let mut i: usize = 0;
    while i < events.len()
        invariant
            i <= events@.len(),
            result@ == spec_flatten_events(events@.take(i as int)),
        decreases events@.len() - i,
    {
        let ghost pre = events@.take(i as int);
        proof {
            assert(events@.take(i + 1).drop_last() =~= pre);
        }
        match &events[i] {
            ActivityEvent::Partition { name, events: inner } => {
                proof {
                    assert(decreases_to!(events@ => events@[i as int]));
                }
                result.push(ActivityEvent::PartitionStart { name: name.clone() });
                let mut flat = flatten_events(inner.as_slice());
                result.append(&mut flat);
                result.push(ActivityEvent::PartitionEnd);
            },
            ActivityEvent::PartitionStart { name } => {
                result.push(ActivityEvent::PartitionStart { name: name.clone() });
            },
            ActivityEvent::PartitionEnd => {
                result.push(ActivityEvent::PartitionEnd);
            },
            ActivityEvent::Other(h) => {
                result.push(ActivityEvent::Other(*h));
            },
        }
        i += 1;
    }
    assert(events@.take(events@.len() as int) =~= events@);
    result
}

/// What the note-mode rule reads of a laid-out node: a flow node (one the
/// flow edges connect), a note (attached or floating), or another node that
/// is not part of the flow (a backward action, goto lines, a partition).
#[derive(Clone, Copy, Debug, PartialEq, Eq, Structural)]
pub enum NoteRuleKind {
    Flow,
    Note,
    Other,
}

/// The end of the run of notes of `ks` from `j`.
pub open spec fn note_run_end(ks: Seq<NoteRuleKind>, j: int) -> int
    decreases ks.len() - j,
{
    if j < 0 || j >= ks.len() || !(ks[j] is Note) {
        j
    } else {
        note_run_end(ks, j + 1)
    }
}

proof fn lemma_note_run_end(ks: Seq<NoteRuleKind>, j: int)
    requires
        0 <= j <= ks.len(),
    ensures
        j <= note_run_end(ks, j) <= ks.len(),
        forall|k: int| j <= k < note_run_end(ks, j) ==> ks[k] is Note,
        note_run_end(ks, j) < ks.len() ==> !(ks[note_run_end(ks, j)] is Note),
    decreases ks.len() - j,
{
    if j < ks.len() && ks[j] is Note {
        lemma_note_run_end(ks, j + 1);
    }
}

/// The mode given to each node from `i` on: the notes right after a flow
/// node are drawn `Single` when there is one of them and `Grouped` when there
/// are several; other nodes get none.
pub open spec fn note_modes_from(ks: Seq<NoteRuleKind>, i: int) -> Seq<Option<ActivityNoteModeLayout>>
    decreases ks.len() - i,
{
    if i < 0 || i >= ks.len() {
        Seq::empty()
    } else if !(ks[i] is Flow) {
        seq![None] + note_modes_from(ks, i + 1)
    } else {
        let e = note_run_end(ks, i + 1);
        let mode = if e - (i + 1) == 1 {
            ActivityNoteModeLayout::Single
        } else {
            ActivityNoteModeLayout::Grouped
        };
        if i < e <= ks.len() {
            seq![None] + Seq::new((e - i - 1) as nat, |k: int| Some(mode)) + note_modes_from(ks, e)
        } else {
            Seq::empty()
        }
    }
}

/// The mode of each node's note (see `note_modes_from`), `None` for the
/// nodes that are no notes of a flow node.
pub fn assign_note_modes(kinds: &[NoteRuleKind]) -> (r: Vec<Option<ActivityNoteModeLayout>>)
    ensures
        r@ == note_modes_from(kinds@, 0),
{
    let ghost ks = kinds@;
    let n = kinds.len();
    let mut out: Vec<Option<ActivityNoteModeLayout>> = Vec::new();
    let mut i: usize = 0;
    while i < n
        invariant
            ks == kinds@,
            n == ks.len(),
            i <= n,
            out@ + note_modes_from(ks, i as int) == note_modes_from(ks, 0),
        decreases n - i,
    {
        let ghost o0 = out@;
        if kinds[i] != NoteRuleKind::Flow {
            out.push(None);
            proof {
                assert(out@ + note_modes_from(ks, i + 1) =~= o0 + note_modes_from(ks, i as int));
            }
            i += 1;
            continue;
        }
        let mut j = i + 1;
        while j < n && kinds[j] == NoteRuleKind::Note
            invariant
                ks == kinds@,
                n == ks.len(),
                i < j <= n,
                note_run_end(ks, i + 1) == note_run_end(ks, j as int),
            decreases n - j,
        {
            j += 1;
        }
        proof {
            lemma_note_run_end(ks, i + 1);
        }
        let mode = if j - (i + 1) == 1 {
            ActivityNoteModeLayout::Single
        } else {
            ActivityNoteModeLayout::Grouped
        };
        out.push(None);
        let ghost o1 = out@;
        let mut k = i + 1;
        while k < j
            invariant
                i < k <= j <= n,
                out@ == o1 + Seq::new((k - i - 1) as nat, |q: int| Some(mode)),
            decreases j - k,
        {
            out.push(Some(mode));
            proof {
                assert(out@ =~= o1 + Seq::new((k + 1 - i - 1) as nat, |q: int| Some(mode)));
            }
            k += 1;
        }
        proof {
            assert(out@ + note_modes_from(ks, j as int) =~= o0 + note_modes_from(ks, i as int));
        }
        i = j;
    }
    proof {
        assert(out@ =~= out@ + note_modes_from(ks, i as int));
    }
    out
}

} // verus!

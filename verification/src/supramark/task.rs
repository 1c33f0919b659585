//! GFM task list markers (`[ ]` and `[x]`) at the start of a list item's text.
use vstd::prelude::*;
use crate::text::{chars_of, lemma_skip_ws_bounds, push_chars, skip_white_space, skip_ws, string_of_chars};

verus! {

broadcast use vstd::seq::group_seq_axioms;

/// Index of the first character at or after `i` that is neither a space nor
/// a tab.
pub open spec fn skip_blanks(v: Seq<char>, i: int) -> int
    decreases v.len() - i,
{
    if i < 0 || i >= v.len() {
        if i < 0 { 0 } else { i }
    } else if v[i] == ' ' || v[i] == '\t' {
        skip_blanks(v, i + 1)
    } else {
        i
    }
}

/// The marker at index `m` of `v`: `Some(false)` for `[ ]`, `Some(true)` for
/// `[x]` or `[X]`.
pub open spec fn marker_at(v: Seq<char>, m: int) -> Option<bool> {
    if m + 3 <= v.len() && v[m] == '[' && v[m + 2] == ']' {
        if v[m + 1] == ' ' {
            Some(false)
        } else if v[m + 1] == 'x' || v[m + 1] == 'X' {
            Some(true)
        } else {
            None
        }
    } else {
        None
    }
}

/// The task marker of a text: after leading white space, a marker followed by
/// at least one space or tab. Gives whether it is checked, and the text with
/// the marker and the blanks after it removed.
pub open spec fn spec_strip_task_marker(v: Seq<char>) -> Option<(bool, Seq<char>)> {
    let lw = skip_ws(v, 0);
    match marker_at(v, lw) {
        Some(checked) => {
            let c = skip_blanks(v, lw + 3);
            if c == lw + 3 {
                None
            } else {
                Some((checked, v.subrange(0, lw) + v.subrange(c, v.len() as int)))
            }
        },
        None => None,
    }
}

/// Remove a task marker from the start of a list item's text: `Some(checked)`
/// when the text starts (after white space) with `[ ]`, `[x]` or `[X]` and
/// one or more spaces or tabs, which are all removed; `None`, with the text
/// unchanged, otherwise.
pub fn strip_task_marker_from_text(value: &mut String) -> (r: Option<bool>)
    ensures
        match spec_strip_task_marker(old(value)@) {
            Some((checked, rest)) => r == Some(checked) && final(value)@ == rest,
            None => r is None && final(value)@ == old(value)@,
        },
{
    let v = chars_of(value.as_str());
    let n = v.len();
    let lw = skip_white_space(&v, 0);
    proof {
        lemma_skip_ws_bounds(v@, 0);
    }
    if !(lw < n && n - lw >= 3 && v[lw] == '[' && v[lw + 2] == ']') {
        return None;
    }
    let checked: bool;
    if v[lw + 1] == ' ' {
        checked = false;
    } else if v[lw + 1] == 'x' || v[lw + 1] == 'X' {
        checked = true;
    } else {
        return None;
    }
    let mut c = lw + 3;
    while c < n && (v[c] == ' ' || v[c] == '\t')
        invariant
            v@ == old(value)@,
            n == v@.len(),
            lw + 3 <= c <= n,
            skip_blanks(v@, lw + 3) == skip_blanks(v@, c as int),
        decreases n - c,
    {
        c += 1;
    }
    if c == lw + 3 {
        return None;
    }
    let mut replacement = string_of_chars(&v, 0, lw);
    push_chars(&mut replacement, &v, c, n);
    *value = replacement;
    Some(checked)
}

/// A text that starts with white space, then `[ ]`, `[x]` or `[X]`, then one
/// or more spaces or tabs, has a task marker: checked unless the box holds a
/// space, and the text without the marker and those blanks is the white
/// space followed by the rest. Any other character in the box is no marker.
pub proof fn lemma_task_marker(ws: Seq<char>, c: char, blanks: Seq<char>, rest: Seq<char>)
    requires
        forall|k: int| 0 <= k < ws.len() ==> crate::text::is_white_space(#[trigger] ws[k]),
        blanks.len() > 0,
        forall|k: int| 0 <= k < blanks.len() ==> #[trigger] blanks[k] == ' ' || blanks[k] == '\t',
        rest.len() == 0 || (rest[0] != ' ' && rest[0] != '\t'),
    ensures
        (c == ' ' || c == 'x' || c == 'X') ==> spec_strip_task_marker(ws + seq!['[', c, ']'] + blanks + rest) == Some(
            (c != ' ', ws + rest),
        ),
        !(c == ' ' || c == 'x' || c == 'X') ==> spec_strip_task_marker(ws + seq!['[', c, ']'] + blanks + rest) is None,
{
    let v = ws + seq!['[', c, ']'] + blanks + rest;
    let m = ws.len() as int;
    lemma_skip_ws_prefix(v, 0, m);
    assert(v[m] == '[');
    assert(skip_ws(v, m) == m);
    assert(v[m + 1] == c && v[m + 2] == ']');
    let b = m + 3 + blanks.len();
    lemma_skip_blanks_run(v, m + 3, b);
    if b < v.len() {
        assert(v[b] == rest[0]);
    }
    assert(skip_blanks(v, b) == b);
    assert(v.subrange(0, m) =~= ws);
    assert(v.subrange(b, v.len() as int) =~= rest);
}

proof fn lemma_skip_ws_prefix(v: Seq<char>, i: int, m: int)
    requires
        0 <= i <= m <= v.len(),
        forall|k: int| i <= k < m ==> crate::text::is_white_space(#[trigger] v[k]),
    ensures
        skip_ws(v, i) == skip_ws(v, m),
    decreases m - i,
{
    if i < m {
        lemma_skip_ws_prefix(v, i + 1, m);
    }
}

proof fn lemma_skip_blanks_run(v: Seq<char>, i: int, b: int)
    requires
        0 <= i <= b <= v.len(),
        forall|k: int| i <= k < b ==> #[trigger] v[k] == ' ' || v[k] == '\t',
    ensures
        skip_blanks(v, i) == skip_blanks(v, b),
    decreases b - i,
{
    if i < b {
        lemma_skip_blanks_run(v, i + 1, b);
    }
}

} // verus!

//! Footnote references cut apart by raw HTML: in `[^"><b>x</b>]` the inline
//! HTML rule takes the tags before the footnote scan sees the whole `[^…]`,
//! so the text before, the raw HTML and the text after are sewn back into
//! one reference whose label holds the HTML as text.
use vstd::prelude::*;
use vstd::utf8::*;
use vstd::string::StringSliceAdditionalSpecFns;
use crate::supramark::footnote::{collapse_white_space, normalize_footnote_identifier, unicode_lowercase};
use crate::supramark::inline_ext::{find_unclosed_footnote_open, first_close_bracket, first_close_bracket_exec, unclosed_caret_from};
use crate::supramark::node::{is_html, SupramarkNode};
use crate::supramark::offsets::{
    ref_position, spec_ref_position, spec_sub_text_position, sub_text_position, OffsetIndex, SourcePosition,
};
use crate::text::{chars_of, decoded, push_chars, string_of_ascii_cut};

verus! {

broadcast use vstd::seq::group_seq_axioms;

/// A raw HTML node.
pub open spec fn is_html_raw(n: SupramarkNode) -> bool {
    n matches SupramarkNode::Raw { format, .. } && format@ == "html"@
}

/// The text a node contributes to a label being sewn back: the value of a
/// text or raw node.
pub open spec fn node_text(n: SupramarkNode) -> Seq<char> {
    match n {
        SupramarkNode::Text { value, .. } => value@,
        SupramarkNode::Raw { value, .. } => value@,
        _ => Seq::empty(),
    }
}

/// The first `]` of a text value, as a byte offset.
pub open spec fn close_bracket(v: Seq<char>) -> Option<int> {
    first_close_bracket(encode_utf8(v), 0)
}

/// The index of the node that closes a reference opened before `j`: the
/// first text node from `j` on that holds a `]`, reached across raw HTML and
/// text without `]` only.
pub open spec fn close_from(ns: Seq<SupramarkNode>, j: int) -> Option<int>
    decreases ns.len() - j,
{
    if j < 0 || j >= ns.len() {
        None
    } else if is_html_raw(ns[j]) {
        close_from(ns, j + 1)
    } else {
        match ns[j] {
            SupramarkNode::Text { value, .. } => if close_bracket(value@) is Some {
                Some(j)
            } else {
                close_from(ns, j + 1)
            },
            _ => None,
        }
    }
}

/// The texts of the nodes `ns[lo..hi]`, joined.
pub open spec fn middle_text(ns: Seq<SupramarkNode>, lo: int, hi: int) -> Seq<char>
    decreases hi - lo,
{
    if hi <= lo {
        Seq::empty()
    } else {
        middle_text(ns, lo, hi - 1) + node_text(ns[hi - 1])
    }
}

/// A text node with this value and span.
pub open spec fn is_text(n: SupramarkNode, v: Seq<char>, p: Option<SourcePosition>) -> bool {
    n matches SupramarkNode::Text { value, position } && value@ == v && position == p
}

/// `out` is what the nodes `ns[i..]` become: where a text node holds a `[^`
/// with no `]` after it and a later text node closes it across raw HTML and
/// text only, the text before the `[`, one footnote reference whose label is
/// everything between `[^` and `]`, and the text after the `]` replace those
/// nodes (empty texts left out); every other node stays as it is.
pub open spec fn reassembled(out: Seq<SupramarkNode>, ns: Seq<SupramarkNode>, i: int, src: Seq<u8>) -> bool
    decreases ns.len() - i,
{
    if i < 0 || i >= ns.len() {
        out.len() == 0
    } else {
        let pass = out.len() > 0 && out[0] == ns[i] && reassembled(out.drop_first(), ns, i + 1, src);
        match ns[i] {
            SupramarkNode::Text { value, position } => {
                let b = encode_utf8(value@);
                match unclosed_caret_from(b, 0) {
                    Some(k) => match close_from(ns, i + 1) {
                        Some(jc) => i < jc < ns.len() && match ns[jc] {
                            SupramarkNode::Text { value: cv, position: cp } => {
                                let cb = encode_utf8(cv@);
                                let br = match close_bracket(cv@) {
                                    Some(x) => x,
                                    None => 0,
                                };
                                let before = decoded(b.subrange(0, k));
                                let after = decoded(cb.subrange(br + 1, cb.len() as int));
                                let label = decoded(b.subrange(k + 2, b.len() as int)) + middle_text(ns, i + 1, jc)
                                    + decoded(cb.subrange(0, br));
                                let nb: int = if before.len() > 0 { 1 } else { 0 };
                                let na: int = if after.len() > 0 { 1 } else { 0 };
                                &&& out.len() >= nb + 1 + na
                                &&& before.len() > 0 ==> is_text(
                                    out[0],
                                    before,
                                    spec_sub_text_position(src, position, b.len() as usize, 0, k as usize),
                                )
                                &&& out[nb] matches SupramarkNode::FootnoteReference {
                                    index,
                                    label: l,
                                    identifier,
                                    position: rp,
                                } && index == 0 && l@ == label && identifier@ == unicode_lowercase(
                                    collapse_white_space(label),
                                ) && rp == spec_ref_position(
                                    src,
                                    position,
                                    b.len() as usize,
                                    k as usize,
                                    cp,
                                    cb.len() as usize,
                                    br as usize,
                                )
                                &&& after.len() > 0 ==> is_text(
                                    out[nb + 1],
                                    after,
                                    spec_sub_text_position(
                                        src,
                                        cp,
                                        cb.len() as usize,
                                        (br + 1) as usize,
                                        cb.len() as usize,
                                    ),
                                )
                                &&& reassembled(out.skip(nb + 1 + na), ns, jc + 1, src)
                            },
                            _ => false,
                        },
                        None => pass,
                    },
                    None => pass,
                }
            },
            _ => pass,
        }
    }
}

proof fn lemma_unclosed_caret_from(b: Seq<u8>, k0: int)
    requires
        0 <= k0,
    ensures
        unclosed_caret_from(b, k0) matches Some(k) ==> k0 <= k && k + 1 < b.len(),
    decreases b.len() - k0,
{
    if k0 + 1 < b.len() {
        lemma_unclosed_caret_from(b, k0 + 1);
    }
}

proof fn lemma_close_from(ns: Seq<SupramarkNode>, j: int)
    ensures
        close_from(ns, j) matches Some(jc) ==> j <= jc < ns.len(),
    decreases ns.len() - j,
{
    if 0 <= j < ns.len() {
        lemma_close_from(ns, j + 1);
    }
}

/// The opening of a reference that a node leaves unclosed: the text before
/// the `[`, the label after the `^`, the node's span, its byte length and the
/// offset of the `[`.
fn open_info(node: &SupramarkNode) -> (r: Option<(String, String, Option<SourcePosition>, usize, usize)>)
    ensures
        match *node {
            SupramarkNode::Text { value, position } => match unclosed_caret_from(encode_utf8(value@), 0) {
                Some(k) => r matches Some((tb, ac, op, ol, ok)) && op == position && ol == encode_utf8(value@).len()
                    && ok == k && ok + 2 <= ol && tb@ == decoded(encode_utf8(value@).subrange(0, k)) && ac@ == decoded(
                    encode_utf8(value@).subrange(k + 2, ol as int),
                ),
                None => r is None,
            },
            _ => r is None,
        },
{
    match node {
        SupramarkNode::Text { value, position } => {
            let s = value.as_str();
            let ghost b = s.spec_bytes();
            proof {
                lemma_unclosed_caret_from(b, 0);
            }
            match find_unclosed_footnote_open(s) {
                Some((tb, ac)) => {
                    proof {
                        encode_utf8_decode_utf8(tb@);
                        encode_utf8_decode_utf8(ac@);
                        assert(unclosed_caret_from(b, 0) is Some);
                        let k = unclosed_caret_from(b, 0)->0;
                        assert(b == encode_utf8(value@));
                        assert(ac.spec_bytes() == b.subrange(k + 2, b.len() as int));
                        assert(ac.spec_bytes().len() == b.len() - k - 2);
                    }
                    let n = s.as_bytes().len();
                    let k = n - ac.len() - 2;
                    Some((tb.to_owned(), ac.to_owned(), *position, n, k))
                },
                None => None,
            }
        },
        _ => None,
    }
}

proof fn lemma_extend(out0: Seq<SupramarkNode>, p: Seq<SupramarkNode>, ns: Seq<SupramarkNode>, i: int, i2: int, src: Seq<u8>)
    requires
        forall|rest: Seq<SupramarkNode>| #[trigger] reassembled(rest, ns, i, src) ==> reassembled(out0 + rest, ns, 0, src),
        forall|rest: Seq<SupramarkNode>| #[trigger] reassembled(rest, ns, i2, src) ==> reassembled(p + rest, ns, i, src),
    ensures
        forall|rest: Seq<SupramarkNode>| #[trigger] reassembled(rest, ns, i2, src) ==> reassembled((out0 + p) + rest, ns, 0, src),
{
    assert forall|rest: Seq<SupramarkNode>| #[trigger] reassembled(rest, ns, i2, src) implies reassembled(
        (out0 + p) + rest,
        ns,
        0,
        src,
    ) by {
        assert(reassembled(p + rest, ns, i, src));
        assert((out0 + p) + rest =~= out0 + (p + rest));
    }
}

/// Push the chars of `s` onto `out`.
fn push_str(out: &mut String, s: &str)
    ensures
        final(out)@ == old(out)@ + s@,
{
    let v = chars_of(s);
    push_chars(out, v.as_slice(), 0, v.len());
    assert(v@.subrange(0, v@.len() as int) =~= v@);
}

/// Sew footnote references cut apart by raw HTML back together (see
/// `reassembled`).
pub fn reassemble_split_footnote_refs(nodes: Vec<SupramarkNode>, index: &OffsetIndex) -> (r: Vec<SupramarkNode>)
    requires
        index.wf(),
    ensures
        reassembled(r@, nodes@, 0, index.source()),
{
    let mut nodes = nodes;
    let ghost ns = nodes@;
    let ghost src = index.source();
    let mut out: Vec<SupramarkNode> = Vec::new();
    let mut i: usize = 0;
    proof {
        assert forall|rest: Seq<SupramarkNode>| #[trigger] reassembled(rest, ns, 0, src) implies reassembled(
            out@ + rest,
            ns,
            0,
            src,
        ) by {
            assert(out@ + rest =~= rest);
        }
    }
    while i < nodes.len()
        invariant
            index.wf(),
            src == index.source(),
            nodes@.len() == ns.len(),
            i <= ns.len(),
            forall|k: int| i <= k < ns.len() ==> nodes@[k] == ns[k],
            forall|rest: Seq<SupramarkNode>| #[trigger] reassembled(rest, ns, i as int, src) ==> reassembled(
                out@ + rest,
                ns,
                0,
                src,
            ),
        decreases ns.len() - i,
    {
        let open = open_info(&nodes[i]);
        let mut close: Option<(usize, usize, usize, String, Option<SourcePosition>)> = None;
        let mut label = String::new();
        if let Some((_, ac, _, _, _)) = &open {
            label = ac.clone();
            let mut j = i + 1;
            while j < nodes.len()
                invariant_except_break
                    close is None,
                    label@ == ac@ + middle_text(ns, i + 1, j as int),
                invariant
                    nodes@.len() == ns.len(),
                    i < j <= ns.len(),
                    forall|k: int| i <= k < ns.len() ==> nodes@[k] == ns[k],
                    close_from(ns, i + 1) == close_from(ns, j as int),
                ensures
                    match close {
                        Some((jc, br, vl, ta, cp)) => close_from(ns, i + 1) == Some(jc as int) && (ns[jc as int] matches SupramarkNode::Text {
                            value: cv,
                            position: p,
                        } && p == cp && close_bracket(cv@) == Some(br as int) && br < vl && vl == encode_utf8(cv@).len()
                            && ta@ == decoded(encode_utf8(cv@).subrange(br + 1, vl as int)) && label@ == ac@
                            + middle_text(ns, i + 1, jc as int) + decoded(encode_utf8(cv@).subrange(0, br as int))),
                        None => close_from(ns, i + 1) is None,
                    },
                decreases ns.len() - j,
            {
                proof {
                    assert(middle_text(ns, i + 1, j + 1) == middle_text(ns, i + 1, j as int) + node_text(ns[j as int]));
                }
                match &nodes[j] {
                    SupramarkNode::Raw { format, value, .. } => {
                        if is_html(format) {
                            push_str(&mut label, value.as_str());
                            j += 1;
                        } else {
                            break;
                        }
                    },
                    SupramarkNode::Text { value, position } => {
                        let b = value.as_str().as_bytes();
                        let blen = b.len();
                        proof {
                            encode_utf8_valid_utf8(value@);
                        }
                        match first_close_bracket_exec(b, 0) {
                            Some(br) => {
                                let head = string_of_ascii_cut(b, 0, br);
                                let tail = string_of_ascii_cut(b, br + 1, b.len());
                                proof {
                                    encode_utf8_decode_utf8(head@);
                                    encode_utf8_decode_utf8(tail@);
                                }
                                push_str(&mut label, head.as_str());
                                close = Some((j, br, b.len(), tail, *position));
                                break;
                            },
                            None => {
                                push_str(&mut label, value.as_str());
                                j += 1;
                            },
                        }
                    },
                    _ => {
                        break;
                    },
                }
            }
        }
        match (open, close) {
            (Some((tb, _, open_pos, open_len, k)), Some((jc, br, vl, ta, cp))) => {
                proof {
                    lemma_close_from(ns, i + 1);
                }
                let ghost before = out@;
                if !tb.as_str().is_empty() {
                    out.push(SupramarkNode::Text { value: tb, position: sub_text_position(index, open_pos.as_ref(), open_len, 0, k) });
                }
                let identifier = normalize_footnote_identifier(label.as_str());
                out.push(
                    SupramarkNode::FootnoteReference {
                        index: 0,
                        label,
                        identifier,
                        position: ref_position(index, open_pos.as_ref(), open_len, k, cp.as_ref(), vl, br),
                    },
                );
                if !ta.as_str().is_empty() {
                    out.push(SupramarkNode::Text { value: ta, position: sub_text_position(index, cp.as_ref(), vl, br + 1, vl) });
                }
                let ghost p = out@.skip(before.len() as int);
                proof {
                    assert(out@ =~= before + p);
                    assert forall|rest: Seq<SupramarkNode>| #[trigger] reassembled(rest, ns, jc + 1, src) implies reassembled(
                        p + rest,
                        ns,
                        i as int,
                        src,
                    ) by {
                        assert((p + rest).skip(p.len() as int) =~= rest);
                    }
                    lemma_extend(before, p, ns, i as int, jc + 1, src);
                }
                i = jc + 1;
            },
            _ => {
                let mut node = SupramarkNode::Break { position: None };
                std::mem::swap(&mut nodes[i], &mut node);
                let ghost before = out@;
                out.push(node);
                proof {
                    let p = seq![node];
                    assert(out@ =~= before + p);
                    assert forall|rest: Seq<SupramarkNode>| #[trigger] reassembled(rest, ns, i + 1, src) implies reassembled(
                        p + rest,
                        ns,
                        i as int,
                        src,
                    ) by {
                        assert((p + rest).drop_first() =~= rest);
                    }
                    lemma_extend(before, p, ns, i as int, i + 1, src);
                }
                i += 1;
            },
        }
    }
    proof {
        assert(reassembled(Seq::<SupramarkNode>::empty(), ns, i as int, src));
        assert(out@ + Seq::<SupramarkNode>::empty() =~= out@);
    }
    out
}

/// A text node that leaves a footnote reference open: it holds a `[^` with
/// no `]` after it.
pub open spec fn opens_reference(n: SupramarkNode) -> bool {
    n matches SupramarkNode::Text { value, .. } && unclosed_caret_from(encode_utf8(value@), 0) is Some
}

proof fn lemma_reassembled_plain_from(ns: Seq<SupramarkNode>, i: int, src: Seq<u8>)
    requires
        0 <= i <= ns.len(),
        forall|k: int| 0 <= k < ns.len() ==> !opens_reference(#[trigger] ns[k]),
    ensures
        reassembled(ns.skip(i), ns, i, src),
    decreases ns.len() - i,
{
    if i < ns.len() {
        lemma_reassembled_plain_from(ns, i + 1, src);
        assert(ns.skip(i).drop_first() =~= ns.skip(i + 1));
        assert(!opens_reference(ns[i]));
    }
}

/// Nodes none of which leaves a footnote reference open come out as they
/// went in.
pub proof fn lemma_reassemble_keeps_plain_nodes(ns: Seq<SupramarkNode>, src: Seq<u8>)
    requires
        forall|k: int| 0 <= k < ns.len() ==> !opens_reference(#[trigger] ns[k]),
    ensures
        reassembled(ns, ns, 0, src),
{
    lemma_reassembled_plain_from(ns, 0, src);
    assert(ns.skip(0) =~= ns);
}

} // verus!

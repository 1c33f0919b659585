//! GFM strikethrough: `~one~` and `~~two~~`. An opening and a closing run
//! must have the same length; runs of three or more tildes are plain text.
use vstd::prelude::*;
use crate::parser::{MarkdownParser, ParserState, Placement, RuleEntry, RuleId};
use crate::text::{chars_of, push_char};

verus! {

broadcast use vstd::seq::group_seq_axioms;

/// A strikethrough span, written with `marker`.
#[derive(Clone, Copy, Debug, PartialEq, Eq, Structural)]
pub struct Strikethrough {
    pub marker: char,
}

/// A delimiter run left in the inline content, waiting for its match:
/// `length` copies of `marker`, whether it may open or close a span, and the
/// source range it covers.
#[derive(Clone, Copy, Debug, PartialEq, Eq, Structural)]
pub struct EmphMarker {
    pub marker: char,
    pub length: usize,
    pub remaining: usize,
    pub open: bool,
    pub close: bool,
    pub content_start: usize,
    pub content_end: usize,
}

/// A delimiter run as the inline tokenizer measures it: its length and
/// whether its flanking lets it open or close.
#[derive(Clone, Copy, Debug, PartialEq, Eq, Structural)]
pub struct DelimRun {
    pub length: usize,
    pub can_open: bool,
    pub can_close: bool,
}

/// A child of the inline node being built: plain text, a pending delimiter
/// run, a strikethrough span with its children, or another node (by handle).
#[derive(Debug)]
pub enum InlineChild {
    Text(String),
    Marker(EmphMarker),
    Strikethrough(Vec<InlineChild>),
    Node(usize),
}

/// The core chain registers `FragmentsJoin`.
pub open spec fn has_fragments_join(core: Seq<RuleEntry>) -> bool {
    exists|i: int| 0 <= i < core.len() && #[trigger] core[i].rule == RuleId::FragmentsJoin
}

/// The parser after the strikethrough plugin is added to `p`.
pub open spec fn spec_strikethrough_add(p: ParserState) -> ParserState {
    let s = p.push_inline(RuleId::Strikethrough, Placement::Default);
    if has_fragments_join(p.core) {
        s
    } else {
        s.push_core(RuleId::FragmentsJoin, Placement::BeforeAllAfter(RuleId::InlineParser))
    }
}

/// Register strikethrough, and the core rule that turns unmatched delimiter
/// runs back into text (once, right after the inline tokenizer).
pub fn add(md: &mut MarkdownParser)
    ensures
        final(md)@ == spec_strikethrough_add(old(md)@),
{
    md.inline.add_rule(RuleId::Strikethrough, Placement::Default);
    if !md.has_rule(RuleId::FragmentsJoin) {
        md.add_rule(RuleId::FragmentsJoin, Placement::BeforeAllAfter(RuleId::InlineParser));
    }
}

/// How many registrations of `r` a chain holds.
pub open spec fn count_rule(s: Seq<RuleEntry>, r: RuleId) -> nat
    decreases s.len(),
{
    if s.len() == 0 {
        0
    } else {
        count_rule(s.drop_last(), r) + if s.last().rule == r { 1nat } else { 0nat }
    }
}

proof fn lemma_count_rule_exists(s: Seq<RuleEntry>, r: RuleId)
    ensures
        count_rule(s, r) > 0 <==> exists|i: int| 0 <= i < s.len() && #[trigger] s[i].rule == r,
    decreases s.len(),
{
    if s.len() > 0 {
        lemma_count_rule_exists(s.drop_last(), r);
        if exists|i: int| 0 <= i < s.drop_last().len() && #[trigger] s.drop_last()[i].rule == r {
            let i = choose|i: int| 0 <= i < s.drop_last().len() && #[trigger] s.drop_last()[i].rule == r;
            assert(s[i] == s.drop_last()[i]);
        }
        if exists|i: int| 0 <= i < s.len() && #[trigger] s[i].rule == r {
            let i = choose|i: int| 0 <= i < s.len() && #[trigger] s[i].rule == r;
            if i < s.len() - 1 {
                assert(s.drop_last()[i] == s[i]);
            }
        }
    }
}

/// Adding the strikethrough plugin leaves the text-joining core rule
/// registered exactly once, however often the plugin is added: it is added
/// only when missing.
pub proof fn lemma_fragments_join_registered_once(p: ParserState)
    requires
        count_rule(p.core, RuleId::FragmentsJoin) <= 1,
    ensures
        count_rule(spec_strikethrough_add(p).core, RuleId::FragmentsJoin) == 1,
{
    lemma_count_rule_exists(p.core, RuleId::FragmentsJoin);
    let e = RuleEntry { rule: RuleId::FragmentsJoin, placement: Placement::BeforeAllAfter(RuleId::InlineParser) };
    assert(p.core.push(e).drop_last() =~= p.core);
}

/// A child that opens a strikethrough closed by `closer`: an opening `~` run
/// of the same length.
pub open spec fn opens_for(c: InlineChild, closer: EmphMarker) -> bool {
    c matches InlineChild::Marker(m) && m.open && m.marker == '~' && m.length == closer.length
}

/// The last child before index `upto` that opens for `closer`.
pub open spec fn last_opener(s: Seq<InlineChild>, closer: EmphMarker, upto: int) -> Option<int>
    decreases upto,
{
    if upto <= 0 || upto > s.len() {
        None
    } else if opens_for(s[upto - 1], closer) {
        Some(upto - 1)
    } else {
        last_opener(s, closer, upto - 1)
    }
}

/// What matching `closer` against `before` gives: the children after, and
/// the node returned.
pub open spec fn matched_as(before: Seq<InlineChild>, after: Seq<InlineChild>, closer: EmphMarker, r: InlineChild) -> bool {
    if !closer.close {
        after == before && r == InlineChild::Marker(closer)
    } else {
        match last_opener(before, closer, before.len() as int) {
            Some(i) => after == before.take(i) && (r matches InlineChild::Strikethrough(v) && v@ == before.skip(i + 1)),
            None => after == before && r == InlineChild::Marker(closer),
        }
    }
}

/// Take `closer` as a possible closing run: when it can close and an opening
/// run of the same length precedes it among `children`, the children after
/// the last such opener become a strikethrough span, which is returned, and
/// the opener is dropped; otherwise `children` stay and the closer comes
/// back as a marker.
pub fn scan_and_match(children: &mut Vec<InlineChild>, closer: EmphMarker) -> (r: InlineChild)
    ensures
        matched_as(old(children)@, final(children)@, closer, r),
{
    if !closer.close {
        return InlineChild::Marker(closer);
    }
    let ghost old_children = children@;
    let mut idx = children.len();
    while idx > 0
        invariant
            children@ == old_children,
            old_children == old(children)@,
            closer.close,
            idx <= old_children.len(),
            last_opener(old_children, closer, old_children.len() as int) == last_opener(
                old_children,
                closer,
                idx as int,
            ),
        decreases idx,
    {
        idx -= 1;
        let is_opener = match &children[idx] {
            InlineChild::Marker(m) => m.open && m.marker == '~' && m.length == closer.length,
            _ => false,
        };
        if is_opener {
            assert(opens_for(old_children[idx as int], closer));
            assert(last_opener(old_children, closer, idx + 1) == Some(idx as int));
            let del = children.split_off(idx + 1);
            children.pop();
            assert(children@ =~= old_children.take(idx as int));
            assert(del@ =~= old_children.skip(idx + 1));
            return InlineChild::Strikethrough(del);
        }
    }
    InlineChild::Marker(closer)
}

/// `n` tildes.
pub open spec fn tildes(n: nat) -> Seq<char> {
    Seq::new(n, |i: int| '~')
}

/// The node the strikethrough rule makes of a `~` run at `pos`, as plain
/// values: text for a run of three or more tildes or one that can neither
/// open nor close; otherwise the run as a marker, matched against the
/// children so far.
pub open spec fn run_is_text(scanned: DelimRun) -> bool {
    scanned.length >= 3 || (!scanned.can_open && !scanned.can_close)
}

pub open spec fn run_marker(scanned: DelimRun, pos: usize) -> EmphMarker {
    EmphMarker {
        marker: '~',
        length: scanned.length,
        remaining: scanned.length,
        open: scanned.can_open,
        close: scanned.can_close,
        content_start: pos,
        content_end: (pos + scanned.length) as usize,
    }
}

/// The inline rule for strikethrough.
pub struct StrikethroughScanner;

impl StrikethroughScanner {
    /// The rule takes nothing when only validating a link label.
    pub fn check() -> (r: Option<usize>)
        ensures
            r is None,
    {
        None
    }

    /// Handle a `~` run at `pos`, where the text `rest` starts and the
    /// delimiter scan gave `scanned`: the node to push and the bytes taken.
    /// A matched run turns the children after its opener into the
    /// strikethrough span that is returned.
    pub fn run(rest: &str, scanned: DelimRun, pos: usize, children: &mut Vec<InlineChild>) -> (r: Option<
        (InlineChild, usize),
    >)
        requires
            pos + scanned.length <= usize::MAX,
        ensures
            !(rest@.len() > 0 && rest@[0] == '~') ==> r is None && final(children)@ == old(children)@,
            rest@.len() > 0 && rest@[0] == '~' && run_is_text(scanned) ==> final(children)@ == old(children)@
                && (r matches Some((InlineChild::Text(t), len)) && t@ == tildes(scanned.length as nat) && len
                == scanned.length),
            rest@.len() > 0 && rest@[0] == '~' && !run_is_text(scanned) ==> match r {
                Some((node, len)) => len == scanned.length && matched_as(
                    old(children)@,
                    final(children)@,
                    run_marker(scanned, pos),
                    node,
                ),
                None => false,
            },
    {
        let v = chars_of(rest);
        if v.len() == 0 || v[0] != '~' {
            return None;
        }
        if scanned.length >= 3 || (!scanned.can_open && !scanned.can_close) {
            let mut t = String::new();
            let mut k: usize = 0;
            while k < scanned.length
                invariant
                    k <= scanned.length,
                    t@ =~= tildes(k as nat),
                decreases scanned.length - k,
            {
                push_char(&mut t, '~');
                k += 1;
            }
            return Some((InlineChild::Text(t), scanned.length));
        }
        let marker = EmphMarker {
            marker: '~',
            length: scanned.length,
            remaining: scanned.length,
            open: scanned.can_open,
            close: scanned.can_close,
            content_start: pos,
            content_end: pos + scanned.length,
        };
        let node = scan_and_match(children, marker);
        Some((node, scanned.length))
    }
}

} // verus!

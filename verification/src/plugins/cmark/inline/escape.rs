//! Backslash escapes, and the hard line breaks written as a backslash at the
//! end of a line.
use vstd::prelude::*;
use vstd::utf8::{encode_scalar, encode_utf8};
use crate::parser::{MarkdownParser, Placement, RuleId};
use crate::text::{chars_of, len_utf8, push_char};

verus! {

broadcast use vstd::seq::group_seq_axioms;

/// The ASCII punctuation characters that a backslash escapes.
pub open spec fn spec_is_escapable_punct(c: char) -> bool {
    c == '\\' || c == '!' || c == '"' || c == '#' || c == '$' || c == '%' || c == '&' || c == '\''
        || c == '(' || c == ')' || c == '*' || c == '+' || c == ',' || c == '-' || c == '.' || c == '/'
        || c == ':' || c == ';' || c == '<' || c == '=' || c == '>' || c == '?' || c == '@' || c == '['
        || c == ']' || c == '^' || c == '_' || c == '`' || c == '{' || c == '|' || c == '}' || c == '~'
}

/// Whether `chr` is a CommonMark backslash-escapable punctuation character.
pub fn is_escapable_punct(chr: char) -> (r: bool)
    ensures
        r == spec_is_escapable_punct(chr),
{
    chr == '\\' || chr == '!' || chr == '"' || chr == '#' || chr == '$' || chr == '%' || chr == '&'
        || chr == '\'' || chr == '(' || chr == ')' || chr == '*' || chr == '+' || chr == ',' || chr == '-'
        || chr == '.' || chr == '/' || chr == ':' || chr == ';' || chr == '<' || chr == '=' || chr == '>'
        || chr == '?' || chr == '@' || chr == '[' || chr == ']' || chr == '^' || chr == '_' || chr == '`'
        || chr == '{' || chr == '|' || chr == '}' || chr == '~'
}

/// Register backslash escapes.
pub fn add(md: &mut MarkdownParser)
    ensures
        final(md)@ == old(md)@.push_inline(RuleId::Escape, Placement::Default),
{
    md.inline.add_rule(RuleId::Escape, Placement::Default);
}

/// What a backslash escape turns into: a hard break, or a special text whose
/// content is the escaped character (the backslash and character when the
/// character is not escapable) and whose markup is the source.
pub enum EscapeToken {
    Hardbreak,
    TextSpecial { content: String, markup: String },
}

/// An escape token as plain values.
pub enum EscapeTokenSpec {
    Hardbreak,
    TextSpecial { content: Seq<char>, markup: Seq<char> },
}

impl View for EscapeToken {
    type V = EscapeTokenSpec;

    open spec fn view(&self) -> EscapeTokenSpec {
        match self {
            EscapeToken::Hardbreak => EscapeTokenSpec::Hardbreak,
            EscapeToken::TextSpecial { content, markup } => EscapeTokenSpec::TextSpecial {
                content: content@,
                markup: markup@,
            },
        }
    }
}

/// Index of the first character at or after `i` that is neither a space nor
/// a tab.
pub open spec fn skip_space_tab(v: Seq<char>, i: int) -> int
    decreases v.len() - i,
{
    if i < 0 || i >= v.len() {
        if i < 0 { 0 } else { i }
    } else if v[i] == ' ' || v[i] == '\t' {
        skip_space_tab(v, i + 1)
    } else {
        i
    }
}

/// What the escape rule makes of the text `v` that starts at a backslash, and
/// how many bytes it consumes: a backslash before a line feed is a hard break
/// that also takes the spaces and tabs starting the next line; before any
/// other character, a special text.
pub open spec fn spec_escape_run(v: Seq<char>) -> Option<(EscapeTokenSpec, int)> {
    if v.len() < 2 || v[0] != '\\' {
        None
    } else if v[1] == '\n' {
        Some((EscapeTokenSpec::Hardbreak, skip_space_tab(v, 2)))
    } else {
        let markup = seq!['\\', v[1]];
        let content = if spec_is_escapable_punct(v[1]) { seq![v[1]] } else { markup };
        Some((EscapeTokenSpec::TextSpecial { content, markup }, 1 + encode_utf8(seq![v[1]]).len() as int))
    }
}

/// The inline rule for backslash escapes.
pub struct EscapeScanner;

impl EscapeScanner {
    /// Scan the text `rest` from the current position to the end of the
    /// inline content; it starts with the rule's marker. Gives the token and
    /// the number of bytes it takes.
    pub fn run(rest: &str) -> (r: Option<(EscapeToken, usize)>)
        requires
            rest@.len() > 0,
        ensures
            match spec_escape_run(rest@) {
                Some((t, len)) => r matches Some((tok, l)) && tok@ == t && l == len,
                None => r is None,
            },
    {
        let v = chars_of(rest);
        let n = v.len();
        if v[0] != '\\' || n < 2 {
            return None;
        }
        let chr = v[1];
        if chr == '\n' {
            let mut k: usize = 2;
            while k < n && (v[k] == ' ' || v[k] == '\t')
                invariant
                    v@ == rest@,
                    n == v@.len(),
                    2 <= k <= n,
                    skip_space_tab(v@, 2) == skip_space_tab(v@, k as int),
                decreases n - k,
            {
                k += 1;
            }
            return Some((EscapeToken::Hardbreak, k));
        }
        let mut markup = String::new();
        push_char(&mut markup, '\\');
        push_char(&mut markup, chr);
        let content = if is_escapable_punct(chr) {
            let mut c = String::new();
            push_char(&mut c, chr);
            c
        } else {
            let mut c = String::new();
            push_char(&mut c, '\\');
            push_char(&mut c, chr);
            c
        };
        assert(markup@ =~= seq!['\\', chr]);
        assert(spec_is_escapable_punct(chr) ==> content@ =~= seq![chr]);
        assert(!spec_is_escapable_punct(chr) ==> content@ =~= seq!['\\', chr]);
        let len = 1 + len_utf8(chr);
        Some((EscapeToken::TextSpecial { content, markup }, len))
    }
}

/// An ASCII punctuation character: `!` to `/`, `:` to `@`, `[` to `` ` ``,
/// `{` to `~`.
pub open spec fn is_ascii_punctuation(c: char) -> bool {
    ('!' <= c && c <= '/') || (':' <= c && c <= '@') || ('[' <= c && c <= '`') || ('{' <= c && c <= '~')
}

/// A backslash escapes exactly the ASCII punctuation characters.
pub proof fn lemma_escapable_is_ascii_punctuation(c: char)
    ensures
        spec_is_escapable_punct(c) <==> is_ascii_punctuation(c),
{
}

/// A backslash before an ASCII punctuation character takes the two
/// characters and gives a special text whose content is the character alone;
/// before any other character but a line feed it gives the backslash and the
/// character as they are. Either way the markup is the source.
pub proof fn lemma_escape_of_punctuation(v: Seq<char>)
    requires
        v.len() >= 2,
        v[0] == '\\',
        v[1] != '\n',
    ensures
        is_ascii_punctuation(v[1]) ==> spec_escape_run(v) == Some(
            (EscapeTokenSpec::TextSpecial { content: seq![v[1]], markup: seq!['\\', v[1]] }, 2int),
        ),
        !is_ascii_punctuation(v[1]) ==> (spec_escape_run(v) matches Some(
            (EscapeTokenSpec::TextSpecial { content, markup }, _),
        ) && content == seq!['\\', v[1]] && markup == seq!['\\', v[1]]),
{
    lemma_escapable_is_ascii_punctuation(v[1]);
    if is_ascii_punctuation(v[1]) {
        let s = seq![v[1]];
        assert(s.drop_first() =~= Seq::<char>::empty());
        assert(encode_utf8(s) == encode_scalar(v[1] as u32) + encode_utf8(Seq::<char>::empty()));
        assert(encode_utf8(s).len() == 1);
    }
}

} // verus!

//! The document model: diagnostics and the nodes of the AST (version 2),
//! with the passes over node trees that strip task list markers, collect
//! diagnostics, turn raw HTML into text and number footnotes.
use vstd::prelude::*;
use crate::supramark::model::{DiagnosticSeverity, ExtensionMode, ParserInfo, TableAlign};
use crate::supramark::offsets::SourcePosition;

verus! {

broadcast use vstd::seq::group_seq_axioms;

#[verifier::external_type_specification]
#[verifier::external_body]
pub struct ExJsonValue(serde_json::Value);

/// A JSON value, as `serde_json` holds it.
pub type JsonValue = serde_json::Value;

/// `<serde_json::Value as Clone>::clone`: the derived deep copy, which gives
/// an equal value.
pub assume_specification[ <serde_json::Value as Clone>::clone ](v: &serde_json::Value) -> (r: serde_json::Value)
    ensures
        r == *v,
;

/// A problem found while parsing, with its code, severity, message, span and
/// any structured data.
#[derive(Debug, PartialEq)]
pub struct Diagnostic {
    pub code: String,
    pub severity: DiagnosticSeverity,
    pub message: String,
    pub position: Option<SourcePosition>,
    pub data: Option<JsonValue>,
}

impl Clone for Diagnostic {
    fn clone(&self) -> (r: Self)
        ensures
            r == *self,
    {
        let data = match &self.data {
            Some(v) => Some(v.clone()),
            None => None,
        };
        Diagnostic {
            code: self.code.clone(),
            severity: self.severity,
            message: self.message.clone(),
            position: self.position,
            data,
        }
    }
}

/// A node of the document model (AST version 2).
#[derive(Debug, PartialEq)]
pub enum SupramarkNode {
    Root { ast_version: u8, children: Vec<SupramarkNode>, diagnostics: Vec<Diagnostic>, parser: Option<ParserInfo>, position: Option<SourcePosition> },
    Paragraph { children: Vec<SupramarkNode>, position: Option<SourcePosition> },
    Heading { depth: u8, children: Vec<SupramarkNode>, position: Option<SourcePosition> },
    Text { value: String, position: Option<SourcePosition> },
    Strong { children: Vec<SupramarkNode>, position: Option<SourcePosition> },
    Emphasis { children: Vec<SupramarkNode>, position: Option<SourcePosition> },
    InlineCode { value: String, position: Option<SourcePosition> },
    Link { url: String, title: Option<String>, children: Vec<SupramarkNode>, position: Option<SourcePosition> },
    Image { url: String, title: Option<String>, alt: String, position: Option<SourcePosition> },
    Break { position: Option<SourcePosition> },
    Delete { children: Vec<SupramarkNode>, position: Option<SourcePosition> },
    Code { value: String, lang: Option<String>, meta: Option<String>, position: Option<SourcePosition> },
    Diagram { engine: String, code: String, fence_closed: bool, meta: Option<JsonValue>, semantic: Option<JsonValue>, position: Option<SourcePosition> },
    List { ordered: bool, start: Option<u32>, children: Vec<SupramarkNode>, position: Option<SourcePosition> },
    ListItem { checked: Option<bool>, children: Vec<SupramarkNode>, position: Option<SourcePosition> },
    Blockquote { children: Vec<SupramarkNode>, position: Option<SourcePosition> },
    ThematicBreak { position: Option<SourcePosition> },
    Table { align: Vec<Option<TableAlign>>, children: Vec<SupramarkNode>, position: Option<SourcePosition> },
    TableRow { children: Vec<SupramarkNode>, position: Option<SourcePosition> },
    TableCell { align: Option<TableAlign>, header: bool, children: Vec<SupramarkNode>, position: Option<SourcePosition> },
    MathBlock { value: String, position: Option<SourcePosition> },
    MathInline { value: String, position: Option<SourcePosition> },
    DefinitionList { children: Vec<SupramarkNode>, position: Option<SourcePosition> },
    DefinitionItem { children: Vec<SupramarkNode>, position: Option<SourcePosition> },
    DefinitionTerm { children: Vec<SupramarkNode>, position: Option<SourcePosition> },
    DefinitionDescription { children: Vec<SupramarkNode>, position: Option<SourcePosition> },
    FootnoteDefinition { index: u32, label: String, identifier: String, children: Vec<SupramarkNode>, position: Option<SourcePosition> },
    FootnoteReference { index: u32, label: String, identifier: String, position: Option<SourcePosition> },
    Container { name: String, mode: ExtensionMode, params: Option<String>, children: Vec<SupramarkNode>, value: Option<String>, data: Option<JsonValue>, position: Option<SourcePosition> },
    Input { name: String, mode: ExtensionMode, params: Option<String>, children: Vec<SupramarkNode>, value: Option<String>, data: Option<JsonValue>, position: Option<SourcePosition> },
    Raw { format: String, value: String, block: bool, position: Option<SourcePosition> },
    Unsupported { syntax: String, reason: String, value: Option<String>, children: Vec<SupramarkNode>, diagnostics: Vec<Diagnostic>, position: Option<SourcePosition> },
}

/// The children of a node that has some; `with_link` counts those of a link.
pub open spec fn kids(n: SupramarkNode, with_link: bool) -> Option<Seq<SupramarkNode>> {
    match n {
        SupramarkNode::Root { children, .. } => Some(children@),
        SupramarkNode::Paragraph { children, .. } => Some(children@),
        SupramarkNode::Heading { children, .. } => Some(children@),
        SupramarkNode::Strong { children, .. } => Some(children@),
        SupramarkNode::Emphasis { children, .. } => Some(children@),
        SupramarkNode::Delete { children, .. } => Some(children@),
        SupramarkNode::List { children, .. } => Some(children@),
        SupramarkNode::ListItem { children, .. } => Some(children@),
        SupramarkNode::Blockquote { children, .. } => Some(children@),
        SupramarkNode::Table { children, .. } => Some(children@),
        SupramarkNode::TableRow { children, .. } => Some(children@),
        SupramarkNode::TableCell { children, .. } => Some(children@),
        SupramarkNode::DefinitionList { children, .. } => Some(children@),
        SupramarkNode::DefinitionItem { children, .. } => Some(children@),
        SupramarkNode::DefinitionTerm { children, .. } => Some(children@),
        SupramarkNode::DefinitionDescription { children, .. } => Some(children@),
        SupramarkNode::FootnoteDefinition { children, .. } => Some(children@),
        SupramarkNode::Container { children, .. } => Some(children@),
        SupramarkNode::Input { children, .. } => Some(children@),
        SupramarkNode::Unsupported { children, .. } => Some(children@),
        SupramarkNode::Link { children, .. } => if with_link { Some(children@) } else { None },
        _ => None,
    }
}

/// `b` is `a` with other children.
pub open spec fn same_but_children(a: SupramarkNode, b: SupramarkNode) -> bool {
    match (a, b) {
        (SupramarkNode::Root { ast_version: a_ast_version, diagnostics: a_diagnostics, parser: a_parser, position: a_position, .. }, SupramarkNode::Root { ast_version: b_ast_version, diagnostics: b_diagnostics, parser: b_parser, position: b_position, .. }) => a_ast_version == b_ast_version && a_diagnostics == b_diagnostics && a_parser == b_parser && a_position == b_position,
        (SupramarkNode::Paragraph { position: a_position, .. }, SupramarkNode::Paragraph { position: b_position, .. }) => a_position == b_position,
        (SupramarkNode::Heading { depth: a_depth, position: a_position, .. }, SupramarkNode::Heading { depth: b_depth, position: b_position, .. }) => a_depth == b_depth && a_position == b_position,
        (SupramarkNode::Strong { position: a_position, .. }, SupramarkNode::Strong { position: b_position, .. }) => a_position == b_position,
        (SupramarkNode::Emphasis { position: a_position, .. }, SupramarkNode::Emphasis { position: b_position, .. }) => a_position == b_position,
        (SupramarkNode::Link { url: a_url, title: a_title, position: a_position, .. }, SupramarkNode::Link { url: b_url, title: b_title, position: b_position, .. }) => a_url == b_url && a_title == b_title && a_position == b_position,
        (SupramarkNode::Delete { position: a_position, .. }, SupramarkNode::Delete { position: b_position, .. }) => a_position == b_position,
        (SupramarkNode::List { ordered: a_ordered, start: a_start, position: a_position, .. }, SupramarkNode::List { ordered: b_ordered, start: b_start, position: b_position, .. }) => a_ordered == b_ordered && a_start == b_start && a_position == b_position,
        (SupramarkNode::ListItem { checked: a_checked, position: a_position, .. }, SupramarkNode::ListItem { checked: b_checked, position: b_position, .. }) => a_checked == b_checked && a_position == b_position,
        (SupramarkNode::Blockquote { position: a_position, .. }, SupramarkNode::Blockquote { position: b_position, .. }) => a_position == b_position,
        (SupramarkNode::Table { align: a_align, position: a_position, .. }, SupramarkNode::Table { align: b_align, position: b_position, .. }) => a_align == b_align && a_position == b_position,
        (SupramarkNode::TableRow { position: a_position, .. }, SupramarkNode::TableRow { position: b_position, .. }) => a_position == b_position,
        (SupramarkNode::TableCell { align: a_align, header: a_header, position: a_position, .. }, SupramarkNode::TableCell { align: b_align, header: b_header, position: b_position, .. }) => a_align == b_align && a_header == b_header && a_position == b_position,
        (SupramarkNode::DefinitionList { position: a_position, .. }, SupramarkNode::DefinitionList { position: b_position, .. }) => a_position == b_position,
        (SupramarkNode::DefinitionItem { position: a_position, .. }, SupramarkNode::DefinitionItem { position: b_position, .. }) => a_position == b_position,
        (SupramarkNode::DefinitionTerm { position: a_position, .. }, SupramarkNode::DefinitionTerm { position: b_position, .. }) => a_position == b_position,
        (SupramarkNode::DefinitionDescription { position: a_position, .. }, SupramarkNode::DefinitionDescription { position: b_position, .. }) => a_position == b_position,
        (SupramarkNode::FootnoteDefinition { index: a_index, label: a_label, identifier: a_identifier, position: a_position, .. }, SupramarkNode::FootnoteDefinition { index: b_index, label: b_label, identifier: b_identifier, position: b_position, .. }) => a_index == b_index && a_label == b_label && a_identifier == b_identifier && a_position == b_position,
        (SupramarkNode::Container { name: a_name, mode: a_mode, params: a_params, value: a_value, data: a_data, position: a_position, .. }, SupramarkNode::Container { name: b_name, mode: b_mode, params: b_params, value: b_value, data: b_data, position: b_position, .. }) => a_name == b_name && a_mode == b_mode && a_params == b_params && a_value == b_value && a_data == b_data && a_position == b_position,
        (SupramarkNode::Input { name: a_name, mode: a_mode, params: a_params, value: a_value, data: a_data, position: a_position, .. }, SupramarkNode::Input { name: b_name, mode: b_mode, params: b_params, value: b_value, data: b_data, position: b_position, .. }) => a_name == b_name && a_mode == b_mode && a_params == b_params && a_value == b_value && a_data == b_data && a_position == b_position,
        (SupramarkNode::Unsupported { syntax: a_syntax, reason: a_reason, value: a_value, diagnostics: a_diagnostics, position: a_position, .. }, SupramarkNode::Unsupported { syntax: b_syntax, reason: b_reason, value: b_value, diagnostics: b_diagnostics, position: b_position, .. }) => a_syntax == b_syntax && a_reason == b_reason && a_value == b_value && a_diagnostics == b_diagnostics && a_position == b_position,
        _ => false,
    }
}

/// Move the children out of a node that has some (leaving it none).
pub fn take_children(node: &mut SupramarkNode, with_link: bool) -> (r: Option<Vec<SupramarkNode>>)
    ensures
        match kids(*old(node), with_link) {
            Some(cs) => r matches Some(v) && v@ == cs && same_but_children(*old(node), *final(node)) && kids(*final(node), with_link) == Some(Seq::<SupramarkNode>::empty()),
            None => r is None && *final(node) == *old(node),
        },
{
    let mut v: Vec<SupramarkNode> = Vec::new();
    match node {
        SupramarkNode::Root { children, .. } => {
            std::mem::swap(children, &mut v);
            Some(v)
        },
        SupramarkNode::Paragraph { children, .. } => {
            std::mem::swap(children, &mut v);
            Some(v)
        },
        SupramarkNode::Heading { children, .. } => {
            std::mem::swap(children, &mut v);
            Some(v)
        },
        SupramarkNode::Strong { children, .. } => {
            std::mem::swap(children, &mut v);
            Some(v)
        },
        SupramarkNode::Emphasis { children, .. } => {
            std::mem::swap(children, &mut v);
            Some(v)
        },
        SupramarkNode::Delete { children, .. } => {
            std::mem::swap(children, &mut v);
            Some(v)
        },
        SupramarkNode::List { children, .. } => {
            std::mem::swap(children, &mut v);
            Some(v)
        },
        SupramarkNode::ListItem { children, .. } => {
            std::mem::swap(children, &mut v);
            Some(v)
        },
        SupramarkNode::Blockquote { children, .. } => {
            std::mem::swap(children, &mut v);
            Some(v)
        },
        SupramarkNode::Table { children, .. } => {
            std::mem::swap(children, &mut v);
            Some(v)
        },
        SupramarkNode::TableRow { children, .. } => {
            std::mem::swap(children, &mut v);
            Some(v)
        },
        SupramarkNode::TableCell { children, .. } => {
            std::mem::swap(children, &mut v);
            Some(v)
        },
        SupramarkNode::DefinitionList { children, .. } => {
            std::mem::swap(children, &mut v);
            Some(v)
        },
        SupramarkNode::DefinitionItem { children, .. } => {
            std::mem::swap(children, &mut v);
            Some(v)
        },
        SupramarkNode::DefinitionTerm { children, .. } => {
            std::mem::swap(children, &mut v);
            Some(v)
        },
        SupramarkNode::DefinitionDescription { children, .. } => {
            std::mem::swap(children, &mut v);
            Some(v)
        },
        SupramarkNode::FootnoteDefinition { children, .. } => {
            std::mem::swap(children, &mut v);
            Some(v)
        },
        SupramarkNode::Container { children, .. } => {
            std::mem::swap(children, &mut v);
            Some(v)
        },
        SupramarkNode::Input { children, .. } => {
            std::mem::swap(children, &mut v);
            Some(v)
        },
        SupramarkNode::Unsupported { children, .. } => {
            std::mem::swap(children, &mut v);
            Some(v)
        },
        SupramarkNode::Link { children, .. } => {
            if with_link {
                std::mem::swap(children, &mut v);
                Some(v)
            } else {
                None
            }
        },
        _ => None,
    }
}

/// Give children back to a node that has a child list.
pub fn put_children(node: &mut SupramarkNode, cs: Vec<SupramarkNode>, with_link: bool)
    requires
        kids(*old(node), with_link) is Some,
    ensures
        same_but_children(*old(node), *final(node)),
        kids(*final(node), with_link) == Some(cs@),
{
    let mut v = cs;
    match node {
        SupramarkNode::Root { children, .. } => {
            std::mem::swap(children, &mut v);
        },
        SupramarkNode::Paragraph { children, .. } => {
            std::mem::swap(children, &mut v);
        },
        SupramarkNode::Heading { children, .. } => {
            std::mem::swap(children, &mut v);
        },
        SupramarkNode::Strong { children, .. } => {
            std::mem::swap(children, &mut v);
        },
        SupramarkNode::Emphasis { children, .. } => {
            std::mem::swap(children, &mut v);
        },
        SupramarkNode::Delete { children, .. } => {
            std::mem::swap(children, &mut v);
        },
        SupramarkNode::List { children, .. } => {
            std::mem::swap(children, &mut v);
        },
        SupramarkNode::ListItem { children, .. } => {
            std::mem::swap(children, &mut v);
        },
        SupramarkNode::Blockquote { children, .. } => {
            std::mem::swap(children, &mut v);
        },
        SupramarkNode::Table { children, .. } => {
            std::mem::swap(children, &mut v);
        },
        SupramarkNode::TableRow { children, .. } => {
            std::mem::swap(children, &mut v);
        },
        SupramarkNode::TableCell { children, .. } => {
            std::mem::swap(children, &mut v);
        },
        SupramarkNode::DefinitionList { children, .. } => {
            std::mem::swap(children, &mut v);
        },
        SupramarkNode::DefinitionItem { children, .. } => {
            std::mem::swap(children, &mut v);
        },
        SupramarkNode::DefinitionTerm { children, .. } => {
            std::mem::swap(children, &mut v);
        },
        SupramarkNode::DefinitionDescription { children, .. } => {
            std::mem::swap(children, &mut v);
        },
        SupramarkNode::FootnoteDefinition { children, .. } => {
            std::mem::swap(children, &mut v);
        },
        SupramarkNode::Container { children, .. } => {
            std::mem::swap(children, &mut v);
        },
        SupramarkNode::Input { children, .. } => {
            std::mem::swap(children, &mut v);
        },
        SupramarkNode::Unsupported { children, .. } => {
            std::mem::swap(children, &mut v);
        },
        SupramarkNode::Link { children, .. } => {
            if with_link {
                std::mem::swap(children, &mut v);
            }
        },
        _ => {},
    }
}

/// What removing a task marker does to a list item's content: the first
/// node, through paragraphs, must be text that starts with a marker.
pub open spec fn task_stripped(old: Seq<SupramarkNode>, new: Seq<SupramarkNode>, r: Option<bool>) -> bool
    decreases old,
{
    if old.len() == 0 {
        r is None && new == old
    } else {
        match old[0] {
            SupramarkNode::Paragraph { children, position } => new.len() == old.len() && new.skip(1) == old.skip(1) && (
            new[0] matches SupramarkNode::Paragraph { children: c2, position: p2 } && p2 == position && task_stripped(
                children@,
                c2@,
                r,
            )),
            SupramarkNode::Text { value, position } => match crate::supramark::task::spec_strip_task_marker(value@) {
                Some((checked, rest)) => r == Some(checked) && new.len() == old.len() && new.skip(1) == old.skip(1) && (
                new[0] matches SupramarkNode::Text { value: v2, position: p2 } && v2@ == rest && p2 == position),
                None => r is None && new.len() == old.len() && new.skip(1) == old.skip(1) && (
                new[0] matches SupramarkNode::Text { value: v2, position: p2 } && v2@ == value@ && p2 == position),
            },
            _ => r is None && new == old,
        }
    }
}

/// Remove a task list marker from the start of a list item's content (its
/// first text, through paragraphs): whether the item is checked, or `None`
/// when there is no marker.
pub fn strip_task_marker(nodes: &mut Vec<SupramarkNode>) -> (r: Option<bool>)
    ensures
        task_stripped(old(nodes)@, final(nodes)@, r),
    decreases old(nodes)@,
{
    if nodes.len() == 0 {
        return None;
    }
    let ghost before = nodes@;
    let mut first = SupramarkNode::Break { position: None };
    std::mem::swap(&mut nodes[0], &mut first);
    let r = match first {
        SupramarkNode::Paragraph { mut children, position } => {
            proof {
                assert(decreases_to!(before => before[0]));
            }
            let r = strip_task_marker(&mut children);
            first = SupramarkNode::Paragraph { children, position };
            r
        },
        SupramarkNode::Text { mut value, position } => {
            let r = crate::supramark::task::strip_task_marker_from_text(&mut value);
            first = SupramarkNode::Text { value, position };
            r
        },
        other => {
            first = other;
            None
        },
    };
    std::mem::swap(&mut nodes[0], &mut first);
    proof {
        assert(nodes@.skip(1) =~= before.skip(1));
        if !(before[0] is Paragraph) && !(before[0] is Text) {
            assert(nodes@ =~= before);
        }
    }
    r
}

/// The diagnostics of a node list: those of each unsupported node, then
/// those below it, in document order (link text is not visited).
pub open spec fn diags_seq(ns: Seq<SupramarkNode>) -> Seq<Diagnostic>
    decreases ns,
{
    if ns.len() == 0 {
        Seq::empty()
    } else {
        let n = ns.last();
        diags_seq(ns.drop_last()) + (match n {
            SupramarkNode::Unsupported { diagnostics, .. } => diagnostics@,
            _ => Seq::empty(),
        }) + match n {
            SupramarkNode::Root { children, .. } => diags_seq(children@),
            SupramarkNode::Paragraph { children, .. } => diags_seq(children@),
            SupramarkNode::Heading { children, .. } => diags_seq(children@),
            SupramarkNode::Strong { children, .. } => diags_seq(children@),
            SupramarkNode::Emphasis { children, .. } => diags_seq(children@),
            SupramarkNode::Delete { children, .. } => diags_seq(children@),
            SupramarkNode::List { children, .. } => diags_seq(children@),
            SupramarkNode::ListItem { children, .. } => diags_seq(children@),
            SupramarkNode::Blockquote { children, .. } => diags_seq(children@),
            SupramarkNode::Table { children, .. } => diags_seq(children@),
            SupramarkNode::TableRow { children, .. } => diags_seq(children@),
            SupramarkNode::TableCell { children, .. } => diags_seq(children@),
            SupramarkNode::DefinitionList { children, .. } => diags_seq(children@),
            SupramarkNode::DefinitionItem { children, .. } => diags_seq(children@),
            SupramarkNode::DefinitionTerm { children, .. } => diags_seq(children@),
            SupramarkNode::DefinitionDescription { children, .. } => diags_seq(children@),
            SupramarkNode::FootnoteDefinition { children, .. } => diags_seq(children@),
            SupramarkNode::Container { children, .. } => diags_seq(children@),
            SupramarkNode::Input { children, .. } => diags_seq(children@),
            SupramarkNode::Unsupported { children, .. } => diags_seq(children@),
            _ => Seq::empty(),
        }
    }
}

/// Append the diagnostics carried by unsupported nodes, in document order.
pub fn collect_diagnostics(nodes: &[SupramarkNode], out: &mut Vec<Diagnostic>)
    ensures
        final(out)@ == old(out)@ + diags_seq(nodes@),
    decreases nodes@,
{
    let ghost start = out@;
    let mut i: usize = 0;
    while i < nodes.len()
        invariant
            i <= nodes@.len(),
            out@ == start + diags_seq(nodes@.take(i as int)),
        decreases nodes@.len() - i,
    {
        let ghost before = out@;
        proof {
            assert(nodes@.take(i + 1).drop_last() =~= nodes@.take(i as int));
            assert(decreases_to!(nodes@ => nodes@[i as int]));
        }
        let node = &nodes[i];
        if let SupramarkNode::Unsupported { diagnostics, .. } = node {
            let mut k: usize = 0;
            while k < diagnostics.len()
                invariant
                    k <= diagnostics@.len(),
                    out@ == before + diagnostics@.take(k as int),
                decreases diagnostics@.len() - k,
            {
                out.push(diagnostics[k].clone());
                proof {
                    assert(diagnostics@.take(k + 1) =~= diagnostics@.take(k as int).push(diagnostics@[k as int]));
                }
                k += 1;
            }
            assert(diagnostics@.take(diagnostics@.len() as int) =~= diagnostics@);
        }
        let ghost mid = out@;
        match node {
            SupramarkNode::Root { children, .. } => {
                collect_diagnostics(children.as_slice(), out);
            },
            SupramarkNode::Paragraph { children, .. } => {
                collect_diagnostics(children.as_slice(), out);
            },
            SupramarkNode::Heading { children, .. } => {
                collect_diagnostics(children.as_slice(), out);
            },
            SupramarkNode::Strong { children, .. } => {
                collect_diagnostics(children.as_slice(), out);
            },
            SupramarkNode::Emphasis { children, .. } => {
                collect_diagnostics(children.as_slice(), out);
            },
            SupramarkNode::Delete { children, .. } => {
                collect_diagnostics(children.as_slice(), out);
            },
            SupramarkNode::List { children, .. } => {
                collect_diagnostics(children.as_slice(), out);
            },
            SupramarkNode::ListItem { children, .. } => {
                collect_diagnostics(children.as_slice(), out);
            },
            SupramarkNode::Blockquote { children, .. } => {
                collect_diagnostics(children.as_slice(), out);
            },
            SupramarkNode::Table { children, .. } => {
                collect_diagnostics(children.as_slice(), out);
            },
            SupramarkNode::TableRow { children, .. } => {
                collect_diagnostics(children.as_slice(), out);
            },
            SupramarkNode::TableCell { children, .. } => {
                collect_diagnostics(children.as_slice(), out);
            },
            SupramarkNode::DefinitionList { children, .. } => {
                collect_diagnostics(children.as_slice(), out);
            },
            SupramarkNode::DefinitionItem { children, .. } => {
                collect_diagnostics(children.as_slice(), out);
            },
            SupramarkNode::DefinitionTerm { children, .. } => {
                collect_diagnostics(children.as_slice(), out);
            },
            SupramarkNode::DefinitionDescription { children, .. } => {
                collect_diagnostics(children.as_slice(), out);
            },
            SupramarkNode::FootnoteDefinition { children, .. } => {
                collect_diagnostics(children.as_slice(), out);
            },
            SupramarkNode::Container { children, .. } => {
                collect_diagnostics(children.as_slice(), out);
            },
            SupramarkNode::Input { children, .. } => {
                collect_diagnostics(children.as_slice(), out);
            },
            SupramarkNode::Unsupported { children, .. } => {
                collect_diagnostics(children.as_slice(), out);
            },
            _ => {},
        }
        proof {
            assert(out@ =~= start + diags_seq(nodes@.take(i + 1)));
        }
        i += 1;
    }
    assert(nodes@.take(nodes@.len() as int) =~= nodes@);
}

/// Each child of a node is smaller than the node.
pub proof fn lemma_children_smaller(n: SupramarkNode)
    ensures
        kids(n, true) matches Some(cs) ==> forall|i: int| 0 <= i < cs.len() ==> decreases_to!(n => cs[i]),
{
    match n {
        SupramarkNode::Root { children, .. } => {
            assert forall|i: int| 0 <= i < children@.len() implies decreases_to!(n => children@[i]) by {}
        },
        SupramarkNode::Paragraph { children, .. } => {
            assert forall|i: int| 0 <= i < children@.len() implies decreases_to!(n => children@[i]) by {}
        },
        SupramarkNode::Heading { children, .. } => {
            assert forall|i: int| 0 <= i < children@.len() implies decreases_to!(n => children@[i]) by {}
        },
        SupramarkNode::Strong { children, .. } => {
            assert forall|i: int| 0 <= i < children@.len() implies decreases_to!(n => children@[i]) by {}
        },
        SupramarkNode::Emphasis { children, .. } => {
            assert forall|i: int| 0 <= i < children@.len() implies decreases_to!(n => children@[i]) by {}
        },
        SupramarkNode::Delete { children, .. } => {
            assert forall|i: int| 0 <= i < children@.len() implies decreases_to!(n => children@[i]) by {}
        },
        SupramarkNode::List { children, .. } => {
            assert forall|i: int| 0 <= i < children@.len() implies decreases_to!(n => children@[i]) by {}
        },
        SupramarkNode::ListItem { children, .. } => {
            assert forall|i: int| 0 <= i < children@.len() implies decreases_to!(n => children@[i]) by {}
        },
        SupramarkNode::Blockquote { children, .. } => {
            assert forall|i: int| 0 <= i < children@.len() implies decreases_to!(n => children@[i]) by {}
        },
        SupramarkNode::Table { children, .. } => {
            assert forall|i: int| 0 <= i < children@.len() implies decreases_to!(n => children@[i]) by {}
        },
        SupramarkNode::TableRow { children, .. } => {
            assert forall|i: int| 0 <= i < children@.len() implies decreases_to!(n => children@[i]) by {}
        },
        SupramarkNode::TableCell { children, .. } => {
            assert forall|i: int| 0 <= i < children@.len() implies decreases_to!(n => children@[i]) by {}
        },
        SupramarkNode::DefinitionList { children, .. } => {
            assert forall|i: int| 0 <= i < children@.len() implies decreases_to!(n => children@[i]) by {}
        },
        SupramarkNode::DefinitionItem { children, .. } => {
            assert forall|i: int| 0 <= i < children@.len() implies decreases_to!(n => children@[i]) by {}
        },
        SupramarkNode::DefinitionTerm { children, .. } => {
            assert forall|i: int| 0 <= i < children@.len() implies decreases_to!(n => children@[i]) by {}
        },
        SupramarkNode::DefinitionDescription { children, .. } => {
            assert forall|i: int| 0 <= i < children@.len() implies decreases_to!(n => children@[i]) by {}
        },
        SupramarkNode::FootnoteDefinition { children, .. } => {
            assert forall|i: int| 0 <= i < children@.len() implies decreases_to!(n => children@[i]) by {}
        },
        SupramarkNode::Container { children, .. } => {
            assert forall|i: int| 0 <= i < children@.len() implies decreases_to!(n => children@[i]) by {}
        },
        SupramarkNode::Input { children, .. } => {
            assert forall|i: int| 0 <= i < children@.len() implies decreases_to!(n => children@[i]) by {}
        },
        SupramarkNode::Unsupported { children, .. } => {
            assert forall|i: int| 0 <= i < children@.len() implies decreases_to!(n => children@[i]) by {}
        },
        SupramarkNode::Link { children, .. } => {
            assert forall|i: int| 0 <= i < children@.len() implies decreases_to!(n => children@[i]) by {}
        },
        _ => {},
    }
}

/// `b` is `a` with raw HTML turned into text throughout (a raw HTML node
/// becomes a text node with the same value and span).
pub open spec fn sanitized(a: SupramarkNode, b: SupramarkNode) -> bool
    decreases a,
{
    match a {
        SupramarkNode::Raw { format, value, position, .. } => if format@ == "html"@ {
            b matches SupramarkNode::Text { value: v, position: p } && v == value && p == position
        } else {
            b == a
        },
        SupramarkNode::Root { children, .. } => same_but_children(a, b) && match kids(b, true) {
            Some(ds) => sanitized_seq(children@, ds),
            None => false,
        },
        SupramarkNode::Paragraph { children, .. } => same_but_children(a, b) && match kids(b, true) {
            Some(ds) => sanitized_seq(children@, ds),
            None => false,
        },
        SupramarkNode::Heading { children, .. } => same_but_children(a, b) && match kids(b, true) {
            Some(ds) => sanitized_seq(children@, ds),
            None => false,
        },
        SupramarkNode::Strong { children, .. } => same_but_children(a, b) && match kids(b, true) {
            Some(ds) => sanitized_seq(children@, ds),
            None => false,
        },
        SupramarkNode::Emphasis { children, .. } => same_but_children(a, b) && match kids(b, true) {
            Some(ds) => sanitized_seq(children@, ds),
            None => false,
        },
        SupramarkNode::Delete { children, .. } => same_but_children(a, b) && match kids(b, true) {
            Some(ds) => sanitized_seq(children@, ds),
            None => false,
        },
        SupramarkNode::List { children, .. } => same_but_children(a, b) && match kids(b, true) {
            Some(ds) => sanitized_seq(children@, ds),
            None => false,
        },
        SupramarkNode::ListItem { children, .. } => same_but_children(a, b) && match kids(b, true) {
            Some(ds) => sanitized_seq(children@, ds),
            None => false,
        },
        SupramarkNode::Blockquote { children, .. } => same_but_children(a, b) && match kids(b, true) {
            Some(ds) => sanitized_seq(children@, ds),
            None => false,
        },
        SupramarkNode::Table { children, .. } => same_but_children(a, b) && match kids(b, true) {
            Some(ds) => sanitized_seq(children@, ds),
            None => false,
        },
        SupramarkNode::TableRow { children, .. } => same_but_children(a, b) && match kids(b, true) {
            Some(ds) => sanitized_seq(children@, ds),
            None => false,
        },
        SupramarkNode::TableCell { children, .. } => same_but_children(a, b) && match kids(b, true) {
            Some(ds) => sanitized_seq(children@, ds),
            None => false,
        },
        SupramarkNode::DefinitionList { children, .. } => same_but_children(a, b) && match kids(b, true) {
            Some(ds) => sanitized_seq(children@, ds),
            None => false,
        },
        SupramarkNode::DefinitionItem { children, .. } => same_but_children(a, b) && match kids(b, true) {
            Some(ds) => sanitized_seq(children@, ds),
            None => false,
        },
        SupramarkNode::DefinitionTerm { children, .. } => same_but_children(a, b) && match kids(b, true) {
            Some(ds) => sanitized_seq(children@, ds),
            None => false,
        },
        SupramarkNode::DefinitionDescription { children, .. } => same_but_children(a, b) && match kids(b, true) {
            Some(ds) => sanitized_seq(children@, ds),
            None => false,
        },
        SupramarkNode::FootnoteDefinition { children, .. } => same_but_children(a, b) && match kids(b, true) {
            Some(ds) => sanitized_seq(children@, ds),
            None => false,
        },
        SupramarkNode::Container { children, .. } => same_but_children(a, b) && match kids(b, true) {
            Some(ds) => sanitized_seq(children@, ds),
            None => false,
        },
        SupramarkNode::Input { children, .. } => same_but_children(a, b) && match kids(b, true) {
            Some(ds) => sanitized_seq(children@, ds),
            None => false,
        },
        SupramarkNode::Unsupported { children, .. } => same_but_children(a, b) && match kids(b, true) {
            Some(ds) => sanitized_seq(children@, ds),
            None => false,
        },
        SupramarkNode::Link { children, .. } => same_but_children(a, b) && match kids(b, true) {
            Some(ds) => sanitized_seq(children@, ds),
            None => false,
        },
        _ => b == a,
    }
}

/// `ds` is `cs` with raw HTML turned into text throughout.
pub open spec fn sanitized_seq(cs: Seq<SupramarkNode>, ds: Seq<SupramarkNode>) -> bool
    decreases cs,
{
    cs.len() == ds.len() && (cs.len() > 0 ==> sanitized_seq(cs.drop_last(), ds.drop_last()) && sanitized(
        cs.last(),
        ds.last(),
    ))
}

pub(crate) fn is_html(format: &String) -> (r: bool)
    ensures
        r == (format@ == "html"@),
{
    let v = crate::text::chars_of(format.as_str());
    let w = crate::text::chars_of("html");
    assert(v@.subrange(0, v@.len() as int) =~= v@);
    crate::text::chars_range_eq(&v, 0, v.len(), &w)
}

/// Turn raw HTML into text throughout a node, for output that must not pass
/// HTML through: the raw value is kept, so renderers escape it.
pub fn sanitize_raw_html(node: &mut SupramarkNode)
    ensures
        sanitized(*old(node), *final(node)),
    decreases *old(node),
{
    let ghost a = *node;
    proof {
        lemma_children_smaller(a);
    }
    match take_children(node, true) {
        Some(mut cs) => {
            let ghost cs0 = cs@;
            let mut i: usize = 0;
            while i < cs.len()
                invariant
                    a == *old(node),
                    kids(a, true) == Some(cs0),
                    cs@.len() == cs0.len(),
                    i <= cs0.len(),
                    forall|k: int| 0 <= k < cs0.len() ==> decreases_to!(a => cs0[k]),
                    sanitized_seq(cs0.take(i as int), cs@.take(i as int)),
                    forall|k: int| i <= k < cs0.len() ==> cs@[k] == cs0[k],
                decreases cs0.len() - i,
            {
                let ghost before = cs@;
                let mut child = SupramarkNode::Break { position: None };
                std::mem::swap(&mut cs[i], &mut child);
                assert(child == cs0[i as int]);
                assert(decreases_to!(a => cs0[i as int]));
                assert(decreases_to!(*old(node) => child));
                sanitize_raw_html(&mut child);
                std::mem::swap(&mut cs[i], &mut child);
                proof {
                    assert(cs0.take(i + 1).drop_last() =~= cs0.take(i as int));
                    assert(cs@.take(i + 1).drop_last() =~= before.take(i as int));
                }
                i += 1;
            }
            assert(cs0.take(cs0.len() as int) =~= cs0);
            assert(cs@.take(cs0.len() as int) =~= cs@);
            put_children(node, cs, true);
        },
        None => {},
    }
    let mut owned = SupramarkNode::Break { position: None };
    std::mem::swap(node, &mut owned);
    let replaced = match owned {
        SupramarkNode::Raw { format, value, block, position } => {
            if is_html(&format) {
                SupramarkNode::Text { value, position }
            } else {
                SupramarkNode::Raw { format, value, block, position }
            }
        },
        other => other,
    };
    *node = replaced;
}

/// The identifiers of the footnote references of a node list, in document
/// order (link text is not visited).
pub open spec fn ref_ids(ns: Seq<SupramarkNode>) -> Seq<Seq<char>>
    decreases ns,
{
    if ns.len() == 0 {
        Seq::empty()
    } else {
        ref_ids(ns.drop_last()) + match ns.last() {
            SupramarkNode::FootnoteReference { identifier, .. } => seq![identifier@],
            SupramarkNode::Root { children, .. } => ref_ids(children@),
            SupramarkNode::Paragraph { children, .. } => ref_ids(children@),
            SupramarkNode::Heading { children, .. } => ref_ids(children@),
            SupramarkNode::Strong { children, .. } => ref_ids(children@),
            SupramarkNode::Emphasis { children, .. } => ref_ids(children@),
            SupramarkNode::Delete { children, .. } => ref_ids(children@),
            SupramarkNode::List { children, .. } => ref_ids(children@),
            SupramarkNode::ListItem { children, .. } => ref_ids(children@),
            SupramarkNode::Blockquote { children, .. } => ref_ids(children@),
            SupramarkNode::Table { children, .. } => ref_ids(children@),
            SupramarkNode::TableRow { children, .. } => ref_ids(children@),
            SupramarkNode::TableCell { children, .. } => ref_ids(children@),
            SupramarkNode::DefinitionList { children, .. } => ref_ids(children@),
            SupramarkNode::DefinitionItem { children, .. } => ref_ids(children@),
            SupramarkNode::DefinitionTerm { children, .. } => ref_ids(children@),
            SupramarkNode::DefinitionDescription { children, .. } => ref_ids(children@),
            SupramarkNode::FootnoteDefinition { children, .. } => ref_ids(children@),
            SupramarkNode::Container { children, .. } => ref_ids(children@),
            SupramarkNode::Input { children, .. } => ref_ids(children@),
            SupramarkNode::Unsupported { children, .. } => ref_ids(children@),
            _ => Seq::empty(),
        }
    }
}

/// The identifiers of the footnote definitions of a node list, in document
/// order, each before those of the definitions inside it.
pub open spec fn def_ids(ns: Seq<SupramarkNode>) -> Seq<Seq<char>>
    decreases ns,
{
    if ns.len() == 0 {
        Seq::empty()
    } else {
        def_ids(ns.drop_last()) + match ns.last() {
            SupramarkNode::FootnoteDefinition { identifier, children, .. } => seq![identifier@] + def_ids(children@),
            SupramarkNode::Root { children, .. } => def_ids(children@),
            SupramarkNode::Paragraph { children, .. } => def_ids(children@),
            SupramarkNode::Heading { children, .. } => def_ids(children@),
            SupramarkNode::Strong { children, .. } => def_ids(children@),
            SupramarkNode::Emphasis { children, .. } => def_ids(children@),
            SupramarkNode::Delete { children, .. } => def_ids(children@),
            SupramarkNode::List { children, .. } => def_ids(children@),
            SupramarkNode::ListItem { children, .. } => def_ids(children@),
            SupramarkNode::Blockquote { children, .. } => def_ids(children@),
            SupramarkNode::Table { children, .. } => def_ids(children@),
            SupramarkNode::TableRow { children, .. } => def_ids(children@),
            SupramarkNode::TableCell { children, .. } => def_ids(children@),
            SupramarkNode::DefinitionList { children, .. } => def_ids(children@),
            SupramarkNode::DefinitionItem { children, .. } => def_ids(children@),
            SupramarkNode::DefinitionTerm { children, .. } => def_ids(children@),
            SupramarkNode::DefinitionDescription { children, .. } => def_ids(children@),
            SupramarkNode::Container { children, .. } => def_ids(children@),
            SupramarkNode::Input { children, .. } => def_ids(children@),
            SupramarkNode::Unsupported { children, .. } => def_ids(children@),
            _ => Seq::empty(),
        }
    }
}

/// The numbering after giving each identifier of `ids`, in order, the next
/// number unless it has one.
pub open spec fn number_labels(ids: Seq<Seq<char>>, m: Map<Seq<char>, u32>, next: int) -> (Map<Seq<char>, u32>, int)
    decreases ids.len(),
{
    if ids.len() == 0 {
        (m, next)
    } else {
        let (m1, n1) = number_labels(ids.drop_last(), m, next);
        if m1.contains_key(ids.last()) {
            (m1, n1)
        } else {
            (m1.insert(ids.last(), n1 as u32), n1 + 1)
        }
    }
}

proof fn lemma_number_labels_next(ids: Seq<Seq<char>>, m: Map<Seq<char>, u32>, next: int)
    ensures
        next <= number_labels(ids, m, next).1 <= next + ids.len(),
    decreases ids.len(),
{
    if ids.len() > 0 {
        lemma_number_labels_next(ids.drop_last(), m, next);
    }
}

proof fn lemma_number_labels_append(a: Seq<Seq<char>>, b: Seq<Seq<char>>, m: Map<Seq<char>, u32>, next: int)
    ensures
        number_labels(a + b, m, next) == number_labels(b, number_labels(a, m, next).0, number_labels(a, m, next).1),
    decreases b.len(),
{
    if b.len() == 0 {
        assert(a + b =~= a);
    } else {
        lemma_number_labels_append(a, b.drop_last(), m, next);
        assert((a + b).drop_last() =~= a + b.drop_last());
    }
}

/// No raw HTML node anywhere in a node (link text included).
pub open spec fn html_free(n: SupramarkNode) -> bool
    decreases n,
{
    match n {
        SupramarkNode::Raw { format, .. } => format@ != "html"@,
        SupramarkNode::Root { children, .. } => html_free_seq(children@),
        SupramarkNode::Paragraph { children, .. } => html_free_seq(children@),
        SupramarkNode::Heading { children, .. } => html_free_seq(children@),
        SupramarkNode::Strong { children, .. } => html_free_seq(children@),
        SupramarkNode::Emphasis { children, .. } => html_free_seq(children@),
        SupramarkNode::Delete { children, .. } => html_free_seq(children@),
        SupramarkNode::List { children, .. } => html_free_seq(children@),
        SupramarkNode::ListItem { children, .. } => html_free_seq(children@),
        SupramarkNode::Blockquote { children, .. } => html_free_seq(children@),
        SupramarkNode::Table { children, .. } => html_free_seq(children@),
        SupramarkNode::TableRow { children, .. } => html_free_seq(children@),
        SupramarkNode::TableCell { children, .. } => html_free_seq(children@),
        SupramarkNode::DefinitionList { children, .. } => html_free_seq(children@),
        SupramarkNode::DefinitionItem { children, .. } => html_free_seq(children@),
        SupramarkNode::DefinitionTerm { children, .. } => html_free_seq(children@),
        SupramarkNode::DefinitionDescription { children, .. } => html_free_seq(children@),
        SupramarkNode::FootnoteDefinition { children, .. } => html_free_seq(children@),
        SupramarkNode::Container { children, .. } => html_free_seq(children@),
        SupramarkNode::Input { children, .. } => html_free_seq(children@),
        SupramarkNode::Unsupported { children, .. } => html_free_seq(children@),
        SupramarkNode::Link { children, .. } => html_free_seq(children@),
        _ => true,
    }
}

/// No raw HTML node anywhere in a node list.
pub open spec fn html_free_seq(ns: Seq<SupramarkNode>) -> bool
    decreases ns,
{
    ns.len() > 0 ==> html_free_seq(ns.drop_last()) && html_free(ns.last())
}

/// Turning raw HTML into text leaves no raw HTML anywhere.
pub proof fn lemma_sanitized_html_free(a: SupramarkNode, b: SupramarkNode)
    requires
        sanitized(a, b),
    ensures
        html_free(b),
    decreases a,
{
    lemma_children_smaller(a);
    match kids(a, true) {
        Some(cs) => {
            let ds = kids(b, true)->0;
            assert forall|i: int| 0 <= i < cs.len() implies decreases_to!(a => cs[i]) by {}
            lemma_sanitized_seq_html_free(a, cs, ds);
        },
        None => {},
    }
}

proof fn lemma_sanitized_seq_html_free(parent: SupramarkNode, cs: Seq<SupramarkNode>, ds: Seq<SupramarkNode>)
    requires
        sanitized_seq(cs, ds),
        forall|i: int| 0 <= i < cs.len() ==> decreases_to!(parent => cs[i]),
    ensures
        html_free_seq(ds),
    decreases parent, cs.len(),
{
    if cs.len() > 0 {
        assert(decreases_to!(parent => cs[cs.len() - 1]));
        lemma_sanitized_html_free(cs.last(), ds.last());
        lemma_sanitized_seq_html_free(parent, cs.drop_last(), ds.drop_last());
    }
}

use crate::supramark::footnote::{assign_footnote_label, FootnoteLabels};

/// Number the footnote references of a node list, in document order.
fn collect_footnote_reference_labels(nodes: &[SupramarkNode], labels: &mut FootnoteLabels, next_index: &mut u32)
    requires
        old(labels).wf(),
        *old(next_index) + ref_ids(nodes@).len() <= u32::MAX,
    ensures
        final(labels).wf(),
        (final(labels)@, *final(next_index) as int) == number_labels(ref_ids(nodes@), old(labels)@, *old(next_index) as int),
    decreases nodes@,
{
    let ghost m0 = labels@;
    let ghost n0 = *next_index as int;
    let mut i: usize = 0;
    while i < nodes.len()
        invariant
            i <= nodes@.len(),
            labels.wf(),
            n0 + ref_ids(nodes@).len() <= u32::MAX,
            (labels@, *next_index as int) == number_labels(ref_ids(nodes@.take(i as int)), m0, n0),
        decreases nodes@.len() - i,
    {
        let ghost pre = ref_ids(nodes@.take(i as int));
        let ghost step = node_ref_ids(nodes@[i as int]);
        proof {
            assert(decreases_to!(nodes@ => nodes@[i as int]));
            lemma_ref_ids_push(nodes@, i as int);
            lemma_ref_ids_prefix_all(nodes@, i + 1);
            lemma_number_labels_next(pre, m0, n0);
        }
        let ghost lb = labels@;
        let ghost nb = *next_index as int;
        let node = &nodes[i];
        match node {
            SupramarkNode::FootnoteReference { identifier, .. } => {
                assign_footnote_label(identifier.as_str(), labels, next_index);
            },
            SupramarkNode::Root { children, .. } => {
                collect_footnote_reference_labels(children.as_slice(), labels, next_index);
            },
            SupramarkNode::Paragraph { children, .. } => {
                collect_footnote_reference_labels(children.as_slice(), labels, next_index);
            },
            SupramarkNode::Heading { children, .. } => {
                collect_footnote_reference_labels(children.as_slice(), labels, next_index);
            },
            SupramarkNode::Strong { children, .. } => {
                collect_footnote_reference_labels(children.as_slice(), labels, next_index);
            },
            SupramarkNode::Emphasis { children, .. } => {
                collect_footnote_reference_labels(children.as_slice(), labels, next_index);
            },
            SupramarkNode::Delete { children, .. } => {
                collect_footnote_reference_labels(children.as_slice(), labels, next_index);
            },
            SupramarkNode::List { children, .. } => {
                collect_footnote_reference_labels(children.as_slice(), labels, next_index);
            },
            SupramarkNode::ListItem { children, .. } => {
                collect_footnote_reference_labels(children.as_slice(), labels, next_index);
            },
            SupramarkNode::Blockquote { children, .. } => {
                collect_footnote_reference_labels(children.as_slice(), labels, next_index);
            },
            SupramarkNode::Table { children, .. } => {
                collect_footnote_reference_labels(children.as_slice(), labels, next_index);
            },
            SupramarkNode::TableRow { children, .. } => {
                collect_footnote_reference_labels(children.as_slice(), labels, next_index);
            },
            SupramarkNode::TableCell { children, .. } => {
                collect_footnote_reference_labels(children.as_slice(), labels, next_index);
            },
            SupramarkNode::DefinitionList { children, .. } => {
                collect_footnote_reference_labels(children.as_slice(), labels, next_index);
            },
            SupramarkNode::DefinitionItem { children, .. } => {
                collect_footnote_reference_labels(children.as_slice(), labels, next_index);
            },
            SupramarkNode::DefinitionTerm { children, .. } => {
                collect_footnote_reference_labels(children.as_slice(), labels, next_index);
            },
            SupramarkNode::DefinitionDescription { children, .. } => {
                collect_footnote_reference_labels(children.as_slice(), labels, next_index);
            },
            SupramarkNode::FootnoteDefinition { children, .. } => {
                collect_footnote_reference_labels(children.as_slice(), labels, next_index);
            },
            SupramarkNode::Container { children, .. } => {
                collect_footnote_reference_labels(children.as_slice(), labels, next_index);
            },
            SupramarkNode::Input { children, .. } => {
                collect_footnote_reference_labels(children.as_slice(), labels, next_index);
            },
            SupramarkNode::Unsupported { children, .. } => {
                collect_footnote_reference_labels(children.as_slice(), labels, next_index);
            },
            _ => {},
        }
        proof {
            lemma_number_labels_append(pre, step, m0, n0);
            if node is FootnoteReference {
                assert(step.drop_last() =~= Seq::<Seq<char>>::empty());
                assert(number_labels(step.drop_last(), lb, nb) == (lb, nb));
            } else if kids(*node, false) is None {
                assert(number_labels(step, lb, nb) == (lb, nb));
            }
            assert((labels@, *next_index as int) == number_labels(step, lb, nb));
        }
        i += 1;
    }
    assert(nodes@.take(nodes@.len() as int) =~= nodes@);
}

/// What one node adds to `ref_ids`.
pub open spec fn node_ref_ids(n: SupramarkNode) -> Seq<Seq<char>> {
    match n {
        SupramarkNode::FootnoteReference { identifier, .. } => seq![identifier@],
        _ => match kids(n, false) {
            Some(cs) => ref_ids(cs),
            None => Seq::empty(),
        },
    }
}

proof fn lemma_ref_ids_push(ns: Seq<SupramarkNode>, i: int)
    requires
        0 <= i < ns.len(),
    ensures
        ref_ids(ns.take(i + 1)) == ref_ids(ns.take(i)) + node_ref_ids(ns[i]),
{
    assert(ns.take(i + 1).drop_last() =~= ns.take(i));
    assert(ns.take(i + 1).last() == ns[i]);
}

proof fn lemma_ref_ids_prefix_all(ns: Seq<SupramarkNode>, k: int)
    requires
        0 <= k <= ns.len(),
    ensures
        ref_ids(ns.take(k)).len() <= ref_ids(ns).len(),
    decreases ns.len() - k,
{
    if k < ns.len() {
        assert(ns.take(k + 1).drop_last() =~= ns.take(k));
        lemma_ref_ids_prefix_all(ns, k + 1);
    } else {
        assert(ns.take(k) =~= ns);
    }
}

/// Number the footnote definitions of a node list, in document order, each
/// before the definitions nested in it.
fn collect_footnote_definition_labels(nodes: &[SupramarkNode], labels: &mut FootnoteLabels, next_index: &mut u32)
    requires
        old(labels).wf(),
        *old(next_index) + def_ids(nodes@).len() <= u32::MAX,
    ensures
        final(labels).wf(),
        (final(labels)@, *final(next_index) as int) == number_labels(def_ids(nodes@), old(labels)@, *old(next_index) as int),
    decreases nodes@,
{
    let ghost m0 = labels@;
    let ghost n0 = *next_index as int;
    let mut i: usize = 0;
    while i < nodes.len()
        invariant
            i <= nodes@.len(),
            labels.wf(),
            n0 + def_ids(nodes@).len() <= u32::MAX,
            (labels@, *next_index as int) == number_labels(def_ids(nodes@.take(i as int)), m0, n0),
        decreases nodes@.len() - i,
    {
        let ghost pre = def_ids(nodes@.take(i as int));
        let ghost step = node_def_ids(nodes@[i as int]);
        proof {
            assert(decreases_to!(nodes@ => nodes@[i as int]));
            lemma_def_ids_push(nodes@, i as int);
            lemma_def_ids_prefix_all(nodes@, i + 1);
            lemma_number_labels_next(pre, m0, n0);
        }
        let ghost lb = labels@;
        let ghost nb = *next_index as int;
        let node = &nodes[i];
        match node {
            SupramarkNode::FootnoteDefinition { identifier, children, .. } => {
                assign_footnote_label(identifier.as_str(), labels, next_index);
                proof {
                    lemma_number_labels_next(seq![identifier@], lb, nb);
                }
                collect_footnote_definition_labels(children.as_slice(), labels, next_index);
            },
            SupramarkNode::Root { children, .. } => {
                collect_footnote_definition_labels(children.as_slice(), labels, next_index);
            },
            SupramarkNode::Paragraph { children, .. } => {
                collect_footnote_definition_labels(children.as_slice(), labels, next_index);
            },
            SupramarkNode::Heading { children, .. } => {
                collect_footnote_definition_labels(children.as_slice(), labels, next_index);
            },
            SupramarkNode::Strong { children, .. } => {
                collect_footnote_definition_labels(children.as_slice(), labels, next_index);
            },
            SupramarkNode::Emphasis { children, .. } => {
                collect_footnote_definition_labels(children.as_slice(), labels, next_index);
            },
            SupramarkNode::Delete { children, .. } => {
                collect_footnote_definition_labels(children.as_slice(), labels, next_index);
            },
            SupramarkNode::List { children, .. } => {
                collect_footnote_definition_labels(children.as_slice(), labels, next_index);
            },
            SupramarkNode::ListItem { children, .. } => {
                collect_footnote_definition_labels(children.as_slice(), labels, next_index);
            },
            SupramarkNode::Blockquote { children, .. } => {
                collect_footnote_definition_labels(children.as_slice(), labels, next_index);
            },
            SupramarkNode::Table { children, .. } => {
                collect_footnote_definition_labels(children.as_slice(), labels, next_index);
            },
            SupramarkNode::TableRow { children, .. } => {
                collect_footnote_definition_labels(children.as_slice(), labels, next_index);
            },
            SupramarkNode::TableCell { children, .. } => {
                collect_footnote_definition_labels(children.as_slice(), labels, next_index);
            },
            SupramarkNode::DefinitionList { children, .. } => {
                collect_footnote_definition_labels(children.as_slice(), labels, next_index);
            },
            SupramarkNode::DefinitionItem { children, .. } => {
                collect_footnote_definition_labels(children.as_slice(), labels, next_index);
            },
            SupramarkNode::DefinitionTerm { children, .. } => {
                collect_footnote_definition_labels(children.as_slice(), labels, next_index);
            },
            SupramarkNode::DefinitionDescription { children, .. } => {
                collect_footnote_definition_labels(children.as_slice(), labels, next_index);
            },
            SupramarkNode::Container { children, .. } => {
                collect_footnote_definition_labels(children.as_slice(), labels, next_index);
            },
            SupramarkNode::Input { children, .. } => {
                collect_footnote_definition_labels(children.as_slice(), labels, next_index);
            },
            SupramarkNode::Unsupported { children, .. } => {
                collect_footnote_definition_labels(children.as_slice(), labels, next_index);
            },
            _ => {},
        }
        proof {
            lemma_number_labels_append(pre, step, m0, n0);
            if let SupramarkNode::FootnoteDefinition { identifier, children, .. } = node {
                let head = seq![identifier@];
                assert(head.drop_last() =~= Seq::<Seq<char>>::empty());
                assert(number_labels(head.drop_last(), lb, nb) == (lb, nb));
                lemma_number_labels_append(head, def_ids(children@), lb, nb);
            } else if kids(*node, false) is None {
                assert(number_labels(step, lb, nb) == (lb, nb));
            }
            assert((labels@, *next_index as int) == number_labels(step, lb, nb));
        }
        i += 1;
    }
    assert(nodes@.take(nodes@.len() as int) =~= nodes@);
}

/// What one node adds to `def_ids`.
pub open spec fn node_def_ids(n: SupramarkNode) -> Seq<Seq<char>> {
    match n {
        SupramarkNode::FootnoteDefinition { identifier, children, .. } => seq![identifier@] + def_ids(children@),
        _ => match kids(n, false) {
            Some(cs) => def_ids(cs),
            None => Seq::empty(),
        },
    }
}

proof fn lemma_def_ids_push(ns: Seq<SupramarkNode>, i: int)
    requires
        0 <= i < ns.len(),
    ensures
        def_ids(ns.take(i + 1)) == def_ids(ns.take(i)) + node_def_ids(ns[i]),
{
    assert(ns.take(i + 1).drop_last() =~= ns.take(i));
    assert(ns.take(i + 1).last() == ns[i]);
}

proof fn lemma_def_ids_prefix_all(ns: Seq<SupramarkNode>, k: int)
    requires
        0 <= k <= ns.len(),
    ensures
        def_ids(ns.take(k)).len() <= def_ids(ns).len(),
    decreases ns.len() - k,
{
    if k < ns.len() {
        assert(ns.take(k + 1).drop_last() =~= ns.take(k));
        lemma_def_ids_prefix_all(ns, k + 1);
    } else {
        assert(ns.take(k) =~= ns);
    }
}

/// The number that `m` gives an identifier, or 0 for one it does not know.
pub open spec fn footnote_number(m: Map<Seq<char>, u32>, id: Seq<char>) -> u32 {
    if m.contains_key(id) {
        m[id]
    } else {
        0
    }
}

/// `b` is `a` with each footnote reference and definition (outside link
/// text) given the number of its identifier in `m`.
pub open spec fn indexed(a: SupramarkNode, b: SupramarkNode, m: Map<Seq<char>, u32>) -> bool
    decreases a,
{
    match a {
        SupramarkNode::FootnoteReference { label, identifier, position, .. } => b == SupramarkNode::FootnoteReference {
            index: footnote_number(m, identifier@),
            label,
            identifier,
            position,
        },
        SupramarkNode::FootnoteDefinition { label, identifier, children, position, .. } => match b {
            SupramarkNode::FootnoteDefinition { index: bi, label: bl, identifier: bid, children: bc, position: bp } => bi
                == footnote_number(m, identifier@) && bl == label && bid == identifier && bp == position && indexed_seq(
                children@,
                bc@,
                m,
            ),
            _ => false,
        },
        SupramarkNode::Root { children, .. } => same_but_children(a, b) && match kids(b, false) {
            Some(ds) => indexed_seq(children@, ds, m),
            None => false,
        },
        SupramarkNode::Paragraph { children, .. } => same_but_children(a, b) && match kids(b, false) {
            Some(ds) => indexed_seq(children@, ds, m),
            None => false,
        },
        SupramarkNode::Heading { children, .. } => same_but_children(a, b) && match kids(b, false) {
            Some(ds) => indexed_seq(children@, ds, m),
            None => false,
        },
        SupramarkNode::Strong { children, .. } => same_but_children(a, b) && match kids(b, false) {
            Some(ds) => indexed_seq(children@, ds, m),
            None => false,
        },
        SupramarkNode::Emphasis { children, .. } => same_but_children(a, b) && match kids(b, false) {
            Some(ds) => indexed_seq(children@, ds, m),
            None => false,
        },
        SupramarkNode::Delete { children, .. } => same_but_children(a, b) && match kids(b, false) {
            Some(ds) => indexed_seq(children@, ds, m),
            None => false,
        },
        SupramarkNode::List { children, .. } => same_but_children(a, b) && match kids(b, false) {
            Some(ds) => indexed_seq(children@, ds, m),
            None => false,
        },
        SupramarkNode::ListItem { children, .. } => same_but_children(a, b) && match kids(b, false) {
            Some(ds) => indexed_seq(children@, ds, m),
            None => false,
        },
        SupramarkNode::Blockquote { children, .. } => same_but_children(a, b) && match kids(b, false) {
            Some(ds) => indexed_seq(children@, ds, m),
            None => false,
        },
        SupramarkNode::Table { children, .. } => same_but_children(a, b) && match kids(b, false) {
            Some(ds) => indexed_seq(children@, ds, m),
            None => false,
        },
        SupramarkNode::TableRow { children, .. } => same_but_children(a, b) && match kids(b, false) {
            Some(ds) => indexed_seq(children@, ds, m),
            None => false,
        },
        SupramarkNode::TableCell { children, .. } => same_but_children(a, b) && match kids(b, false) {
            Some(ds) => indexed_seq(children@, ds, m),
            None => false,
        },
        SupramarkNode::DefinitionList { children, .. } => same_but_children(a, b) && match kids(b, false) {
            Some(ds) => indexed_seq(children@, ds, m),
            None => false,
        },
        SupramarkNode::DefinitionItem { children, .. } => same_but_children(a, b) && match kids(b, false) {
            Some(ds) => indexed_seq(children@, ds, m),
            None => false,
        },
        SupramarkNode::DefinitionTerm { children, .. } => same_but_children(a, b) && match kids(b, false) {
            Some(ds) => indexed_seq(children@, ds, m),
            None => false,
        },
        SupramarkNode::DefinitionDescription { children, .. } => same_but_children(a, b) && match kids(b, false) {
            Some(ds) => indexed_seq(children@, ds, m),
            None => false,
        },
        SupramarkNode::Container { children, .. } => same_but_children(a, b) && match kids(b, false) {
            Some(ds) => indexed_seq(children@, ds, m),
            None => false,
        },
        SupramarkNode::Input { children, .. } => same_but_children(a, b) && match kids(b, false) {
            Some(ds) => indexed_seq(children@, ds, m),
            None => false,
        },
        SupramarkNode::Unsupported { children, .. } => same_but_children(a, b) && match kids(b, false) {
            Some(ds) => indexed_seq(children@, ds, m),
            None => false,
        },
        _ => b == a,
    }
}

/// `ds` is `cs` with footnotes numbered by `m`.
pub open spec fn indexed_seq(cs: Seq<SupramarkNode>, ds: Seq<SupramarkNode>, m: Map<Seq<char>, u32>) -> bool
    decreases cs,
{
    cs.len() == ds.len() && (cs.len() > 0 ==> indexed_seq(cs.drop_last(), ds.drop_last(), m) && indexed(
        cs.last(),
        ds.last(),
        m,
    ))
}

fn lookup_number(labels: &FootnoteLabels, identifier: &String) -> (r: u32)
    requires
        labels.wf(),
    ensures
        r == footnote_number(labels@, identifier@),
{
    match labels.get(identifier.as_str()) {
        Some(n) => n,
        None => 0,
    }
}

/// Give each footnote reference and definition in a node the number of its
/// identifier.
fn apply_footnote_index(node: &mut SupramarkNode, labels: &FootnoteLabels)
    requires
        labels.wf(),
    ensures
        indexed(*old(node), *final(node), labels@),
    decreases *old(node),
{
    let ghost a = *node;
    proof {
        lemma_children_smaller(a);
    }
    match take_children(node, false) {
        Some(mut cs) => {
            let ghost cs0 = cs@;
            let mut i: usize = 0;
            while i < cs.len()
                invariant
                    a == *old(node),
                    labels.wf(),
                    kids(a, false) == Some(cs0),
                    cs@.len() == cs0.len(),
                    i <= cs0.len(),
                    forall|k: int| 0 <= k < cs0.len() ==> decreases_to!(a => cs0[k]),
                    indexed_seq(cs0.take(i as int), cs@.take(i as int), labels@),
                    forall|k: int| i <= k < cs0.len() ==> cs@[k] == cs0[k],
                decreases cs0.len() - i,
            {
                let ghost before = cs@;
                let mut child = SupramarkNode::Break { position: None };
                std::mem::swap(&mut cs[i], &mut child);
                assert(child == cs0[i as int]);
                assert(kids(a, true) == Some(cs0));
                assert(decreases_to!(*old(node) => child));
                apply_footnote_index(&mut child, labels);
                std::mem::swap(&mut cs[i], &mut child);
                proof {
                    assert(cs0.take(i + 1).drop_last() =~= cs0.take(i as int));
                    assert(cs@.take(i + 1).drop_last() =~= before.take(i as int));
                }
                i += 1;
            }
            assert(cs0.take(cs0.len() as int) =~= cs0);
            assert(cs@.take(cs0.len() as int) =~= cs@);
            put_children(node, cs, false);
        },
        None => {},
    }
    match node {
        SupramarkNode::FootnoteReference { index, identifier, .. } => {
            *index = lookup_number(labels, identifier);
        },
        SupramarkNode::FootnoteDefinition { index, identifier, .. } => {
            *index = lookup_number(labels, identifier);
        },
        _ => {},
    }
}

/// Give each footnote reference and definition in a node list the number of
/// its identifier.
fn apply_footnote_indices(nodes: &mut Vec<SupramarkNode>, labels: &FootnoteLabels)
    requires
        labels.wf(),
    ensures
        indexed_seq(old(nodes)@, final(nodes)@, labels@),
{
    let ghost ns0 = nodes@;
    let mut i: usize = 0;
    while i < nodes.len()
        invariant
            labels.wf(),
            nodes@.len() == ns0.len(),
            i <= ns0.len(),
            ns0 == old(nodes)@,
            indexed_seq(ns0.take(i as int), nodes@.take(i as int), labels@),
            forall|k: int| i <= k < ns0.len() ==> nodes@[k] == ns0[k],
        decreases ns0.len() - i,
    {
        let ghost before = nodes@;
        let mut node = SupramarkNode::Break { position: None };
        std::mem::swap(&mut nodes[i], &mut node);
        apply_footnote_index(&mut node, labels);
        std::mem::swap(&mut nodes[i], &mut node);
        proof {
            assert(ns0.take(i + 1).drop_last() =~= ns0.take(i as int));
            assert(nodes@.take(i + 1).drop_last() =~= before.take(i as int));
        }
        i += 1;
    }
    assert(ns0.take(ns0.len() as int) =~= ns0);
    assert(nodes@.take(ns0.len() as int) =~= nodes@);
}

/// The numbers of a document's footnotes: references first, then
/// definitions, each identifier numbered from 1 in order of first appearance.
pub open spec fn footnote_numbering(ns: Seq<SupramarkNode>) -> Map<Seq<char>, u32> {
    let (m1, n1) = number_labels(ref_ids(ns), Map::empty(), 1);
    number_labels(def_ids(ns), m1, n1).0
}

/// Number the footnotes of a document (see `footnote_numbering`) and write
/// each number into its references and definitions.
pub fn assign_footnote_indices(children: &mut Vec<SupramarkNode>)
    requires
        1 + ref_ids(old(children)@).len() + def_ids(old(children)@).len() <= u32::MAX,
    ensures
        indexed_seq(old(children)@, final(children)@, footnote_numbering(old(children)@)),
{
    let mut labels = FootnoteLabels::new();
    let mut next_index: u32 = 1;
    collect_footnote_reference_labels(children.as_slice(), &mut labels, &mut next_index);
    proof {
        lemma_number_labels_next(ref_ids(children@), Map::empty(), 1);
    }
    collect_footnote_definition_labels(children.as_slice(), &mut labels, &mut next_index);
    apply_footnote_indices(children, &labels);
}

/// Every number in `m` is below `next`.
pub open spec fn numbers_below(m: Map<Seq<char>, u32>, next: int) -> bool {
    forall|k: Seq<char>| #[trigger] m.contains_key(k) ==> m[k] < next
}

/// No two identifiers share a number in `m`.
pub open spec fn numbers_distinct(m: Map<Seq<char>, u32>) -> bool {
    forall|x: Seq<char>, y: Seq<char>|
        #[trigger] m.contains_key(x) && #[trigger] m.contains_key(y) && x != y ==> m[x] != m[y]
}

/// `ids[j]` occurs at `j` for the first time.
pub open spec fn first_at(ids: Seq<Seq<char>>, j: int) -> bool {
    !ids.take(j).contains(ids[j])
}

proof fn lemma_number_labels_props(ids: Seq<Seq<char>>, m: Map<Seq<char>, u32>, next: int)
    requires
        numbers_below(m, next),
        numbers_distinct(m),
        0 <= next,
        next + ids.len() <= u32::MAX + 1,
    ensures
        ({
            let (m2, n2) = number_labels(ids, m, next);
            &&& forall|k: Seq<char>| #[trigger] m2.contains_key(k) <==> (m.contains_key(k) || ids.contains(k))
            &&& forall|k: Seq<char>| #[trigger] m.contains_key(k) ==> m2[k] == m[k]
            &&& numbers_below(m2, n2)
            &&& numbers_distinct(m2)
            &&& forall|k: Seq<char>| #[trigger] m2.contains_key(k) && !m.contains_key(k) ==> next <= m2[k]
            &&& forall|i: int, j: int|
                0 <= i < j < ids.len() && first_at(ids, j) && !m.contains_key(ids[j]) ==> #[trigger] m2[ids[i]]
                    < #[trigger] m2[ids[j]]
        }),
    decreases ids.len(),
{
    if ids.len() > 0 {
        let pre = ids.drop_last();
        let e = ids.last();
        lemma_number_labels_props(pre, m, next);
        lemma_number_labels_next(pre, m, next);
        let (m1, n1) = number_labels(pre, m, next);
        let (m2, n2) = number_labels(ids, m, next);
        assert forall|k: Seq<char>| ids.contains(k) <==> (pre.contains(k) || k == e) by {
            if ids.contains(k) {
                let w = choose|w: int| 0 <= w < ids.len() && ids[w] == k;
                if w < ids.len() - 1 {
                    assert(pre[w] == k);
                }
            }
            if pre.contains(k) {
                let w = choose|w: int| 0 <= w < pre.len() && pre[w] == k;
                assert(ids[w] == k);
            }
            if k == e {
                assert(ids[ids.len() - 1] == k);
            }
        }
        assert forall|i: int, j: int|
            0 <= i < j < ids.len() && first_at(ids, j) && !m.contains_key(ids[j]) implies #[trigger] m2[ids[i]]
                < #[trigger] m2[ids[j]] by {
            assert(pre[i] == ids[i]);
            assert(pre.contains(ids[i]));
            if j < ids.len() - 1 {
                assert(pre[j] == ids[j]);
                assert(pre.take(j) =~= ids.take(j));
                assert(first_at(pre, j));
                assert(m1[pre[i]] < m1[pre[j]]);
                assert(m1.contains_key(ids[j]));
                if !m1.contains_key(e) {
                    assert(ids[i] != e);
                    assert(ids[j] != e);
                }
            } else {
                assert(ids.take(j) =~= pre);
                assert(!pre.contains(e));
                assert(!m1.contains_key(e));
                assert(m1.contains_key(ids[i]));
            }
        }
    }
}

/// Footnote numbering: each identifier that a reference or definition uses
/// gets a number, and only those do; numbers are distinct and run from 1;
/// an identifier first met earlier (references before definitions, each in
/// document order) gets a smaller number.
pub proof fn lemma_footnote_numbering(ns: Seq<SupramarkNode>)
    requires
        1 + ref_ids(ns).len() + def_ids(ns).len() <= u32::MAX,
    ensures
        ({
            let ids = ref_ids(ns) + def_ids(ns);
            let m = footnote_numbering(ns);
            &&& forall|k: Seq<char>| #[trigger] m.contains_key(k) <==> ids.contains(k)
            &&& numbers_distinct(m)
            &&& forall|k: Seq<char>| #[trigger] m.contains_key(k) ==> 1 <= m[k] <= ids.len()
            &&& forall|i: int, j: int| 0 <= i < j < ids.len() && first_at(ids, j) ==> #[trigger] m[ids[i]] < #[trigger] m[ids[j]]
        }),
{
    let ids = ref_ids(ns) + def_ids(ns);
    lemma_number_labels_append(ref_ids(ns), def_ids(ns), Map::empty(), 1);
    lemma_number_labels_props(ids, Map::empty(), 1);
    lemma_number_labels_next(ids, Map::empty(), 1);
}

} // verus!

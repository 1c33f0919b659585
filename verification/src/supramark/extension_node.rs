//! The document node of an extension block: a container or an input, or an
//! unsupported node with a diagnostic when the block is never closed.
use vstd::prelude::*;
use crate::supramark::extension::{ExtensionOpen, ExtensionSyntax};
use crate::supramark::model::{DiagnosticSeverity, ExtensionMode};
use crate::supramark::node::{Diagnostic, JsonValue, SupramarkNode};
use crate::supramark::offsets::SourcePosition;
use crate::text::{chars_of, push_chars};

verus! {

broadcast use vstd::seq::group_seq_axioms;

/// The containers whose body carries data of its own.
#[derive(Clone, Copy, Debug, PartialEq, Eq, Structural)]
pub enum ContainerData {
    Maps,
    Vison,
    Html,
    Weather,
}

/// The kind of data a container with this name carries.
pub open spec fn spec_container_data(name: Seq<char>) -> Option<ContainerData> {
    if name == "map"@ {
        Some(ContainerData::Maps)
    } else if name == "vison"@ {
        Some(ContainerData::Vison)
    } else if name == "html"@ {
        Some(ContainerData::Html)
    } else if name == "weather"@ {
        Some(ContainerData::Weather)
    } else {
        None
    }
}

pub(crate) fn same_chars(a: &str, b: &str) -> (r: bool)
    ensures
        r == (a@ == b@),
{
    let v = chars_of(a);
    let w = chars_of(b);
    if v.len() != w.len() {
        return false;
    }
    let mut k: usize = 0;
    while k < v.len()
        invariant
            v@ == a@,
            w@ == b@,
            v@.len() == w@.len(),
            k <= v@.len(),
            forall|q: int| 0 <= q < k ==> v@[q] == w@[q],
        decreases v@.len() - k,
    {
        if v[k] != w[k] {
            return false;
        }
        k += 1;
    }
    assert(v@ =~= w@);
    true
}

/// Which data a container with this name carries, if any.
pub fn container_data(name: &str) -> (r: Option<ContainerData>)
    ensures
        r == spec_container_data(name@),
{
    if same_chars(name, "map") {
        Some(ContainerData::Maps)
    } else if same_chars(name, "vison") {
        Some(ContainerData::Vison)
    } else if same_chars(name, "html") {
        Some(ContainerData::Html)
    } else if same_chars(name, "weather") {
        Some(ContainerData::Weather)
    } else {
        None
    }
}

/// The message of the diagnostic for a block never closed by `marker`.
pub open spec fn unclosed_message(marker: Seq<char>) -> Seq<char> {
    "Missing closing `"@ + marker + "` marker."@
}

fn clone_opt_string(o: &Option<String>) -> (r: Option<String>)
    ensures
        r == *o,
{
    match o {
        Some(s) => Some(s.clone()),
        None => None,
    }
}

fn string_of(s: &str) -> (r: String)
    ensures
        r@ == s@,
{
    let mut out = String::new();
    let v = chars_of(s);
    push_chars(&mut out, v.as_slice(), 0, v.len());
    assert(v@.subrange(0, v@.len() as int) =~= v@);
    out
}

/// The node of an extension block with body `value`: when it was never
/// closed, an unsupported node with an error diagnostic; else a container
/// with the data `data` (see `container_data`) or an input, opaque, with the
/// body as value.
pub fn build_extension_node(
    open: &ExtensionOpen,
    value: String,
    position: Option<SourcePosition>,
    closed: bool,
    data: Option<JsonValue>,
) -> (r: SupramarkNode)
    ensures
        !closed ==> (r matches SupramarkNode::Unsupported { syntax, reason, value: v, children, diagnostics, position: p } && syntax@
            == (if open.syntax is Container {
            "container"@
        } else {
            "input"@
        }) && reason@ == "missing closing marker"@ && v == Some(value) && children@.len() == 0 && p == position
            && diagnostics@.len() == 1 && diagnostics@[0].code@ == "unclosed_extension_block"@ && diagnostics@[0].severity
            == DiagnosticSeverity::Error && diagnostics@[0].message@ == unclosed_message(open.close_marker@)
            && diagnostics@[0].position == position && diagnostics@[0].data is None),
        closed && open.syntax is Container ==> (r matches SupramarkNode::Container {
            name,
            mode,
            params,
            children,
            value: v,
            data: d,
            position: p,
        } && name == open.name && mode == ExtensionMode::Opaque && params == open.params && children@.len() == 0
            && v == Some(value) && d == data && p == position),
        closed && open.syntax is Input ==> (r matches SupramarkNode::Input {
            name,
            mode,
            params,
            children,
            value: v,
            data: d,
            position: p,
        } && name == open.name && mode == ExtensionMode::Opaque && params == open.params && children@.len() == 0
            && v == Some(value) && d is None && p == position),
{
    if !closed {
        let mut message = string_of("Missing closing `");
        let marker = chars_of(open.close_marker);
        push_chars(&mut message, marker.as_slice(), 0, marker.len());
        let tail = chars_of("` marker.");
        push_chars(&mut message, tail.as_slice(), 0, tail.len());
        proof {
            assert(marker@.subrange(0, marker@.len() as int) =~= marker@);
            assert(tail@.subrange(0, tail@.len() as int) =~= tail@);
        }
        let diagnostic = Diagnostic {
            code: string_of("unclosed_extension_block"),
            severity: DiagnosticSeverity::Error,
            message,
            position,
            data: None,
        };
        let syntax = match open.syntax {
            ExtensionSyntax::Container => string_of("container"),
            ExtensionSyntax::Input => string_of("input"),
        };
        return SupramarkNode::Unsupported {
            syntax,
            reason: string_of("missing closing marker"),
            value: Some(value),
            children: Vec::new(),
            diagnostics: vec![diagnostic],
            position,
        };
    }
    match open.syntax {
        ExtensionSyntax::Container => SupramarkNode::Container {
            name: open.name.clone(),
            mode: ExtensionMode::Opaque,
            params: clone_opt_string(&open.params),
            children: Vec::new(),
            value: Some(value),
            data,
            position,
        },
        ExtensionSyntax::Input => SupramarkNode::Input {
            name: open.name.clone(),
            mode: ExtensionMode::Opaque,
            params: clone_opt_string(&open.params),
            children: Vec::new(),
            value: Some(value),
            data: None,
            position,
        },
    }
}

} // verus!

//! Plain values of the document model: parser identification, diagnostics
//! severities, table alignment, extension modes, parse options, and the
//! lookups on fence languages and weather block parameters.
use vstd::prelude::*;
use crate::text::{chars_of, chars_range_eq, ascii_lower_range, ascii_lower_seq, skip_white_space, skip_ws,
    lemma_skip_ws_bounds, is_white_space_char};
use crate::supramark::extension::{first_ws_in};

verus! {

broadcast use vstd::seq::group_seq_axioms;

/// The parser that produced a document: its name and version.
#[derive(Clone, Debug, PartialEq, Eq)]
pub struct ParserInfo {
    pub name: String,
    pub version: Option<String>,
}

/// How serious a diagnostic is.
#[derive(Clone, Copy, Debug, PartialEq, Eq, Structural)]
pub enum DiagnosticSeverity {
    Info,
    Warning,
    Error,
}

/// Alignment of a table column in the document model.
#[derive(Clone, Copy, Debug, PartialEq, Eq, Structural)]
pub enum TableAlign {
    Left,
    Right,
    Center,
}

/// Alignment of a table column as the table parser records it.
#[derive(Clone, Copy, Debug, PartialEq, Eq, Structural)]
pub enum ColumnAlignment {
    Unaligned,
    Left,
    Right,
    Center,
}

/// How an extension block's content is held: parsed as Markdown, or kept as
/// raw text.
#[derive(Clone, Copy, Debug, PartialEq, Eq, Structural)]
pub enum ExtensionMode {
    Transparent,
    Opaque,
}

/// The document-model alignment of a column: none for an unaligned column.
pub fn map_alignment(alignment: &ColumnAlignment) -> (r: Option<TableAlign>)
    ensures
        r == (match *alignment {
            ColumnAlignment::Unaligned => None,
            ColumnAlignment::Left => Some(TableAlign::Left),
            ColumnAlignment::Right => Some(TableAlign::Right),
            ColumnAlignment::Center => Some(TableAlign::Center),
        }),
{
    match alignment {
        ColumnAlignment::Unaligned => None,
        ColumnAlignment::Left => Some(TableAlign::Left),
        ColumnAlignment::Right => Some(TableAlign::Right),
        ColumnAlignment::Center => Some(TableAlign::Center),
    }
}

/// Options of a parse: which GFM extensions are on, whether wiki links are
/// recognised, which constructs are disabled (by name, such as `codeIndented`),
/// whether raw HTML and dangerous URL protocols pass through, and whether an
/// indented link reference definition may follow another one.
#[derive(Clone, Debug)]
pub struct ParseOptions {
    pub gfm_tables: bool,
    pub gfm_strikethrough: bool,
    pub gfm_autolink: bool,
    pub wikilink: bool,
    pub disable: Vec<String>,
    pub allow_dangerous_html: bool,
    pub allow_dangerous_protocol: bool,
    pub subsequent_indented_definitions: bool,
}

/// The default of the GFM switches when an options object leaves them out.
pub fn default_true() -> (r: bool)
    ensures
        r,
{
    true
}

/// The default of `allow_dangerous_html`: raw HTML passes through.
pub fn default_dangerous_html() -> (r: bool)
    ensures
        r,
{
    true
}

/// The default of `allow_dangerous_protocol`.
pub fn default_dangerous_protocol() -> (r: bool)
    ensures
        r,
{
    true
}

impl Default for ParseOptions {
    /// Every GFM extension on, wiki links off, nothing disabled, raw HTML
    /// and dangerous protocols allowed, strict CommonMark indentation of
    /// definitions.
    fn default() -> (r: Self)
        ensures
            r.gfm_tables,
            r.gfm_strikethrough,
            r.gfm_autolink,
            !r.wikilink,
            r.disable@.len() == 0,
            r.allow_dangerous_html,
            r.allow_dangerous_protocol,
            !r.subsequent_indented_definitions,
    {
        ParseOptions {
            gfm_tables: true,
            gfm_strikethrough: true,
            gfm_autolink: true,
            wikilink: false,
            disable: Vec::new(),
            allow_dangerous_html: true,
            allow_dangerous_protocol: true,
            subsequent_indented_definitions: false,
        }
    }
}

/// Fence languages that name a diagram engine, in lower case.
pub open spec fn is_diagram_engine(lang: Seq<char>) -> bool {
    ||| lang == "mermaid"@
    ||| lang == "plantuml"@
    ||| lang == "vega"@
    ||| lang == "vega-lite"@
    ||| lang == "echarts"@
    ||| lang == "chart"@
    ||| lang == "chartjs"@
    ||| lang == "chart.js"@
    ||| lang == "plotly"@
    ||| lang == "dot"@
    ||| lang == "graphviz"@
    ||| lang == "d2"@
}

/// The documented diagram engines.
pub open spec fn documented_diagram_engines() -> Seq<Seq<char>> {
    seq![
        "mermaid"@,
        "plantuml"@,
        "vega"@,
        "vega-lite"@,
        "echarts"@,
        "chart"@,
        "chartjs"@,
        "chart.js"@,
        "plotly"@,
        "dot"@,
        "graphviz"@,
        "d2"@,
    ]
}

/// A fence language names a diagram engine exactly when it is one of the
/// documented engines.
pub proof fn lemma_diagram_engines(lang: Seq<char>)
    ensures
        is_diagram_engine(lang) <==> documented_diagram_engines().contains(lang),
{
    let d = documented_diagram_engines();
    if is_diagram_engine(lang) {
        if lang == d[0] {
            assert(d[0] == lang);
        } else if lang == d[1] {
            assert(d[1] == lang);
        } else if lang == d[2] {
            assert(d[2] == lang);
        } else if lang == d[3] {
            assert(d[3] == lang);
        } else if lang == d[4] {
            assert(d[4] == lang);
        } else if lang == d[5] {
            assert(d[5] == lang);
        } else if lang == d[6] {
            assert(d[6] == lang);
        } else if lang == d[7] {
            assert(d[7] == lang);
        } else if lang == d[8] {
            assert(d[8] == lang);
        } else if lang == d[9] {
            assert(d[9] == lang);
        } else if lang == d[10] {
            assert(d[10] == lang);
        } else {
            assert(d[11] == lang);
        }
    }
    if d.contains(lang) {
        let k = choose|k: int| 0 <= k < d.len() && d[k] == lang;
        assert(0 <= k < 12);
    }
}

fn is_lit(v: &[char], lit: &'static str) -> (r: bool)
    ensures
        r == (v@ == lit@),
{
    let w = chars_of(lit);
    assert(v@.subrange(0, v@.len() as int) =~= v@);
    chars_range_eq(v, 0, v.len(), &w)
}

/// The diagram engine a fence language names, ASCII case aside.
pub fn diagram_engine(lang: &str) -> (r: Option<&'static str>)
    ensures
        is_diagram_engine(ascii_lower_seq(lang@)) ==> (r matches Some(e) && e@ == ascii_lower_seq(lang@)),
        !is_diagram_engine(ascii_lower_seq(lang@)) ==> r is None,
{
    let v = chars_of(lang);
    let lower = chars_of(ascii_lower_range(&v, 0, v.len()).as_str());
    assert(v@.subrange(0, v@.len() as int) =~= v@);
    let names: [&'static str; 12] = [
        "mermaid",
        "plantuml",
        "vega",
        "vega-lite",
        "echarts",
        "chart",
        "chartjs",
        "chart.js",
        "plotly",
        "dot",
        "graphviz",
        "d2",
    ];
    let mut i: usize = 0;
    while i < 12
        invariant
            lower@ == ascii_lower_seq(lang@),
            i <= 12,
            names@ == seq![
                "mermaid",
                "plantuml",
                "vega",
                "vega-lite",
                "echarts",
                "chart",
                "chartjs",
                "chart.js",
                "plotly",
                "dot",
                "graphviz",
                "d2",
            ],
            forall|k: int| 0 <= k < i ==> lower@ != (#[trigger] names@[k])@,
        decreases 12 - i,
    {
        if is_lit(&lower, names[i]) {
            return Some(names[i]);
        }
        i += 1;
    }
    assert(lower@ != names@[0]@);
    assert(lower@ != names@[1]@);
    assert(lower@ != names@[2]@);
    assert(lower@ != names@[3]@);
    assert(lower@ != names@[4]@);
    assert(lower@ != names@[5]@);
    assert(lower@ != names@[6]@);
    assert(lower@ != names@[7]@);
    assert(lower@ != names@[8]@);
    assert(lower@ != names@[9]@);
    assert(lower@ != names@[10]@);
    assert(lower@ != names@[11]@);
    None
}

/// The first white-space separated word of `p`, if any.
pub open spec fn first_word(p: Seq<char>) -> Option<Seq<char>> {
    let a = skip_ws(p, 0);
    if a >= p.len() {
        None
    } else {
        Some(p.subrange(a, first_ws_in(p, a, p.len() as int)))
    }
}

/// The format of a weather block's configuration: the first parameter word,
/// ASCII case aside, when it is `json`, `toon` or `yaml`; `yaml` otherwise.
pub open spec fn spec_weather_format(params: Option<Seq<char>>) -> Seq<char> {
    match params {
        Some(p) => match first_word(p) {
            Some(w) => if ascii_lower_seq(w) == "json"@ {
                "json"@
            } else if ascii_lower_seq(w) == "toon"@ {
                "toon"@
            } else {
                "yaml"@
            },
            None => "yaml"@,
        },
        None => "yaml"@,
    }
}

pub open spec fn opt_str_view(o: Option<&str>) -> Option<Seq<char>> {
    match o {
        Some(s) => Some(s@),
        None => None,
    }
}

/// The configuration format named by a weather block's parameters.
pub fn parse_weather_format(params: Option<&str>) -> (r: &'static str)
    ensures
        r@ == spec_weather_format(opt_str_view(params)),
{
    let p = match params {
        Some(p) => p,
        None => {
            return "yaml";
        },
    };
    let v = chars_of(p);
    let n = v.len();
    let a = skip_white_space(&v, 0);
    proof {
        lemma_skip_ws_bounds(v@, 0);
    }
    if a >= n {
        return "yaml";
    }
    let mut w = a;
    while w < n && !is_white_space_char(v[w])
        invariant
            v@ == p@,
            n == v@.len(),
            a <= w <= n,
            first_ws_in(v@, a as int, n as int) == first_ws_in(v@, w as int, n as int),
        decreases n - w,
    {
        w += 1;
    }
    let word = chars_of(ascii_lower_range(&v, a, w).as_str());
    if is_lit(&word, "json") {
        "json"
    } else if is_lit(&word, "toon") {
        "toon"
    } else {
        "yaml"
    }
}

} // verus!

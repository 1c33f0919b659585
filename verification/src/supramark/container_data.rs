//! The data of the vison and weather containers: their bodies read as JSON
//! (through `serde_json`) or as `key: value` lines, and the fields a weather
//! block takes from its configuration.
use vstd::prelude::*;
use crate::plugins::extra::math::trimmed;
use crate::supramark::extension_node::same_chars;
use crate::supramark::model::{opt_str_view, parse_weather_format, spec_weather_format};
use crate::supramark::node::JsonValue;
use crate::supramark::weather::{config_entries, lines_from, trim_range, weather_config_entries};
use crate::text::{chars_of, chars_range_eq, string_of_chars};

verus! {

broadcast use vstd::seq::group_seq_axioms;

/// What a JSON text is: not JSON (with the parser's message), a JSON value
/// other than an object, or an object with its members in the parser's order
/// (each key, and whether its value is `null`).
pub enum JsonShape {
    Invalid(Seq<char>),
    Other,
    Object(Seq<(Seq<char>, bool)>),
}

/// The shape `serde_json::from_str` finds in a text.
pub uninterp spec fn json_text_shape(s: Seq<char>) -> JsonShape;

/// A member value of a JSON object: `null`, or another value.
pub enum JsonField {
    Null,
    Value(JsonValue),
}

/// A text read as JSON: the members of an object, a value that is no
/// object, or the parser's message for a text that is not JSON.
pub enum JsonParse {
    Object(Vec<(String, JsonField)>),
    NotObject,
    Invalid(String),
}

/// The members of an object as keys and `null` flags.
pub open spec fn fields_shape(es: Seq<(String, JsonField)>) -> Seq<(Seq<char>, bool)> {
    Seq::new(es.len(), |i: int| (es[i].0@, es[i].1 is Null))
}

/// The shape of a parse result.
pub open spec fn parse_shape(r: JsonParse) -> JsonShape {
    match r {
        JsonParse::Object(es) => JsonShape::Object(fields_shape(es@)),
        JsonParse::NotObject => JsonShape::Other,
        JsonParse::Invalid(m) => JsonShape::Invalid(m@),
    }
}

/// `serde_json::from_str::<serde_json::Value>`.
///
/// Claims that what the parse finds (whether the text is JSON, whether it is
/// an object, the object's keys in order with their `null` flags, and the
/// error message) depends on the text alone; what that is for a given text
/// is left unstated.
#[verifier::external_body]
fn parse_json_text(s: &str) -> (r: JsonParse)
    ensures
        parse_shape(r) == json_text_shape(s@),
{
    match serde_json::from_str::<serde_json::Value>(s) {
        Ok(serde_json::Value::Object(m)) => JsonParse::Object(
            m.into_iter().map(|(k, v)| match v {
                serde_json::Value::Null => (k, JsonField::Null),
                v => (k, JsonField::Value(v)),
            }).collect(),
        ),
        Ok(_) => JsonParse::NotObject,
        Err(e) => JsonParse::Invalid(format!("{}", e)),
    }
}

/// `value` without white space at either end.
fn trim_str(value: &str) -> (r: String)
    ensures
        r@ == trimmed(value@),
{
    let v = chars_of(value);
    let t = trim_range(&v, 0, v.len());
    proof {
        assert(v@.subrange(0, v@.len() as int) =~= v@);
        assert(t@.subrange(0, t@.len() as int) =~= t@);
    }
    string_of_chars(&t, 0, t.len())
}

/// What the body of a vison container holds.
pub enum VisonOutcome {
    /// Only white space.
    EmptyBody,
    /// A JSON object, with its members.
    Spec(Vec<(String, JsonField)>),
    /// A JSON value that is no object.
    NotObject,
    /// No JSON, with the parser's message.
    ParseError(String),
}

/// The message a vison container carries when its body holds no JSON object.
pub open spec fn vison_error_spec(r: VisonOutcome) -> Option<Seq<char>> {
    match r {
        VisonOutcome::EmptyBody => Some("empty body"@),
        VisonOutcome::Spec(_) => None,
        VisonOutcome::NotObject => Some("parsed value is not a JSON object"@),
        VisonOutcome::ParseError(m) => Some(m@),
    }
}

impl VisonOutcome {
    /// Why the body holds no JSON object, `None` when it holds one.
    pub fn error_message(&self) -> (r: Option<String>)
        ensures
            match r {
                Some(m) => vison_error_spec(*self) == Some(m@),
                None => vison_error_spec(*self) is None,
            },
    {
        match self {
            VisonOutcome::EmptyBody => {
                let m = chars_of("empty body");
                proof {
                    assert(m@.subrange(0, m@.len() as int) =~= m@);
                }
                Some(string_of_chars(&m, 0, m.len()))
            },
            VisonOutcome::Spec(_) => None,
            VisonOutcome::NotObject => {
                let m = chars_of("parsed value is not a JSON object");
                proof {
                    assert(m@.subrange(0, m@.len() as int) =~= m@);
                }
                Some(string_of_chars(&m, 0, m.len()))
            },
            VisonOutcome::ParseError(m) => Some(m.clone()),
        }
    }
}

/// Read the body of a vison container: empty when it is only white space,
/// else the JSON of the trimmed body, which must be an object.
pub fn vison_data(value: &str) -> (r: VisonOutcome)
    ensures
        trimmed(value@).len() == 0 <==> r is EmptyBody,
        trimmed(value@).len() > 0 ==> match json_text_shape(trimmed(value@)) {
            JsonShape::Object(fs) => r matches VisonOutcome::Spec(es) && fields_shape(es@) == fs,
            JsonShape::Other => r is NotObject,
            JsonShape::Invalid(m) => r matches VisonOutcome::ParseError(e) && e@ == m,
        },
{
    let t = trim_str(value);
    if t.as_str().is_empty() {
        return VisonOutcome::EmptyBody;
    }
    match parse_json_text(t.as_str()) {
        JsonParse::Object(es) => VisonOutcome::Spec(es),
        JsonParse::NotObject => VisonOutcome::NotObject,
        JsonParse::Invalid(m) => VisonOutcome::ParseError(m),
    }
}

/// The last of the first `n` entries with key `key`.
pub open spec fn last_with_key(es: Seq<(Seq<char>, bool)>, key: Seq<char>, n: int) -> Option<int>
    decreases n,
{
    if n <= 0 || n > es.len() {
        None
    } else if es[n - 1].0 == key {
        Some(n - 1)
    } else {
        last_with_key(es, key, n - 1)
    }
}

/// The entry a field takes: that of the first alias (from `a` on) some entry
/// has, the last entry with it (a later key overrides an earlier one);
/// nothing when that entry is `null` or no entry has an alias.
pub open spec fn chosen_entry(es: Seq<(Seq<char>, bool)>, aliases: Seq<Seq<char>>, a: int) -> Option<int>
    decreases aliases.len() - a,
{
    if a < 0 || a >= aliases.len() {
        None
    } else {
        match last_with_key(es, aliases[a], es.len() as int) {
            Some(i) => if es[i].1 {
                None
            } else {
                Some(i)
            },
            None => chosen_entry(es, aliases, a + 1),
        }
    }
}

proof fn lemma_last_with_key_bounds(es: Seq<(Seq<char>, bool)>, key: Seq<char>, n: int)
    ensures
        last_with_key(es, key, n) matches Some(i) ==> 0 <= i < n && i < es.len(),
    decreases n,
{
    if n > 0 && n <= es.len() && es[n - 1].0 != key {
        lemma_last_with_key_bounds(es, key, n - 1);
    }
}

proof fn lemma_chosen_entry_bounds(es: Seq<(Seq<char>, bool)>, aliases: Seq<Seq<char>>, a: int)
    ensures
        chosen_entry(es, aliases, a) matches Some(i) ==> 0 <= i < es.len(),
    decreases aliases.len() - a,
{
    if 0 <= a < aliases.len() {
        lemma_last_with_key_bounds(es, aliases[a], es.len() as int);
        lemma_chosen_entry_bounds(es, aliases, a + 1);
    }
}

/// The fields of a weather block and the keys that can set them.
pub open spec fn weather_field_table() -> Seq<(Seq<char>, Seq<Seq<char>>)> {
    seq![
        ("location"@, seq!["location"@]),
        ("units"@, seq!["units"@]),
        ("showForecast"@, seq!["showForecast"@, "show_forecast"@]),
        ("days"@, seq!["days"@]),
    ]
}

/// The fields a weather block takes from the entries of its configuration
/// (from field `f` on): each field with the entry it takes, in table order.
pub open spec fn weather_fields(es: Seq<(Seq<char>, bool)>, f: int) -> Seq<(Seq<char>, int)>
    decreases weather_field_table().len() - f,
{
    if f < 0 || f >= weather_field_table().len() {
        Seq::empty()
    } else {
        (match chosen_entry(es, weather_field_table()[f].1, 0) {
            Some(i) => seq![(weather_field_table()[f].0, i)],
            None => Seq::empty(),
        }) + weather_fields(es, f + 1)
    }
}

/// The index of the entry that a field with keys `aliases` takes (see
/// `chosen_entry`).
pub fn select_weather_field(es: &[(String, bool)], aliases: &[&str]) -> (r: Option<usize>)
    ensures
        r == (match chosen_entry(Seq::new(es@.len(), |i: int| (es@[i].0@, es@[i].1)), Seq::new(aliases@.len(), |i: int| aliases@[i]@), 0) {
            Some(i) => Some(i as usize),
            None => None,
        }),
{
    let ghost ev = Seq::new(es@.len(), |i: int| (es@[i].0@, es@[i].1));
    let ghost av = Seq::new(aliases@.len(), |i: int| aliases@[i]@);
    let _ = es.len();
    let mut a: usize = 0;
    while a < aliases.len()
        invariant
            ev == Seq::new(es@.len(), |i: int| (es@[i].0@, es@[i].1)),
            av == Seq::new(aliases@.len(), |i: int| aliases@[i]@),
            a <= aliases@.len(),
            chosen_entry(ev, av, 0) == chosen_entry(ev, av, a as int),
        decreases aliases@.len() - a,
    {
        let mut n = es.len();
        while n > 0
            invariant
                ev == Seq::new(es@.len(), |i: int| (es@[i].0@, es@[i].1)),
                av == Seq::new(aliases@.len(), |i: int| aliases@[i]@),
                a < aliases@.len(),
                n <= es@.len(),
                chosen_entry(ev, av, 0) == chosen_entry(ev, av, a as int),
                last_with_key(ev, av[a as int], es@.len() as int) == last_with_key(ev, av[a as int], n as int),
            decreases n,
        {
            if same_chars(es[n - 1].0.as_str(), aliases[a]) {
                proof {
                    assert(ev[n - 1] == (es@[n - 1].0@, es@[n - 1].1));
                    assert(av[a as int] == aliases@[a as int]@);
                    assert(last_with_key(ev, av[a as int], n as int) == Some(n - 1));
                }
                if es[n - 1].1 {
                    return None;
                }
                return Some(n - 1);
            }
            n -= 1;
        }
        a += 1;
    }
    None
}

/// A weather block's configuration: a JSON object, `key: value` lines (values
/// left as text), or nothing readable.
pub enum WeatherConfig {
    Json(JsonParse),
    KeyValue(Vec<(String, String)>),
    /// JSON that could not be read as an object.
    Unreadable,
}

/// What a weather block holds: the configuration format, the configuration,
/// the fields it sets (each with the index of the configuration entry that
/// sets it), and why the configuration could not be read.
pub struct WeatherData {
    pub format: &'static str,
    pub config: WeatherConfig,
    pub fields: Vec<(String, usize)>,
    pub error: Option<String>,
}

/// The message for a JSON configuration that is no object.
pub open spec fn not_object_message() -> Seq<char> {
    "weather JSON config must be an object"@
}

/// The entries of a configuration as keys and `null` flags.
pub open spec fn config_shape(c: WeatherConfig) -> Seq<(Seq<char>, bool)> {
    match c {
        WeatherConfig::Json(JsonParse::Object(es)) => fields_shape(es@),
        WeatherConfig::KeyValue(es) => Seq::new(es@.len(), |i: int| (es@[i].0@, false)),
        _ => Seq::empty(),
    }
}

fn entry_keys(c: &WeatherConfig) -> (r: Vec<(String, bool)>)
    ensures
        Seq::new(r@.len(), |i: int| (r@[i].0@, r@[i].1)) == config_shape(*c),
{
    let mut out: Vec<(String, bool)> = Vec::new();
    match c {
        WeatherConfig::Json(JsonParse::Object(es)) => {
            let mut i: usize = 0;
            while i < es.len()
                invariant
                    i <= es@.len(),
                    out@.len() == i,
                    forall|k: int| 0 <= k < i ==> (#[trigger] out@[k]).0@ == es@[k].0@ && out@[k].1 == (es@[k].1 is Null),
                decreases es@.len() - i,
            {
                let is_null = match &es[i].1 {
                    JsonField::Null => true,
                    JsonField::Value(_) => false,
                };
                out.push((es[i].0.clone(), is_null));
                i += 1;
            }
        },
        WeatherConfig::KeyValue(es) => {
            let mut i: usize = 0;
            while i < es.len()
                invariant
                    i <= es@.len(),
                    out@.len() == i,
                    forall|k: int| 0 <= k < i ==> (#[trigger] out@[k]).0@ == es@[k].0@ && !out@[k].1,
                decreases es@.len() - i,
            {
                out.push((es[i].0.clone(), false));
                i += 1;
            }
        },
        _ => {},
    }
    proof {
        assert(Seq::new(out@.len(), |i: int| (out@[i].0@, out@[i].1)) =~= config_shape(*c));
    }
    out
}

/// Read the body of a weather block whose parameters are `params`: in the
/// format they name (see `parse_weather_format`), JSON as an object or
/// `key: value` lines; then, for each of location, units, showForecast (also
/// set by `show_forecast`) and days, the entry that sets it (see
/// `weather_fields`).
pub fn weather_data(params: Option<&str>, value: &str) -> (r: WeatherData)
    ensures
        r.format@ == spec_weather_format(opt_str_view(params)),
        r.format@ == "json"@ ==> match json_text_shape(trimmed(value@)) {
            JsonShape::Object(fs) => (r.config matches WeatherConfig::Json(JsonParse::Object(es)) && fields_shape(es@)
                == fs) && r.error is None,
            JsonShape::Other => (r.error matches Some(m) && m@ == not_object_message()) && r.config is Unreadable
                && r.fields@.len() == 0,
            JsonShape::Invalid(msg) => (r.error matches Some(m) && m@ == msg) && r.config is Unreadable
                && r.fields@.len() == 0,
        },
        r.format@ != "json"@ ==> r.error is None && (r.config matches WeatherConfig::KeyValue(es) && es@.len()
            == config_entries(lines_from(value@, 0)).len() && forall|k: int|
            0 <= k < es@.len() ==> (#[trigger] es@[k]).0@ == config_entries(lines_from(value@, 0))[k].0 && es@[k].1@
                == config_entries(lines_from(value@, 0))[k].1),
        r.error is None ==> Seq::new(r.fields@.len(), |i: int| (r.fields@[i].0@, r.fields@[i].1 as int))
            == weather_fields(config_shape(r.config), 0),
{
    let format = parse_weather_format(params);
    let (config, error) = if same_chars(format, "json") {
        let t = trim_str(value);
        match parse_json_text(t.as_str()) {
            JsonParse::Object(es) => (WeatherConfig::Json(JsonParse::Object(es)), None),
            JsonParse::NotObject => {
                let m = chars_of("weather JSON config must be an object");
                let msg = string_of_chars(&m, 0, m.len());
                proof {
                    assert(m@.subrange(0, m@.len() as int) =~= m@);
                }
                (WeatherConfig::Unreadable, Some(msg))
            },
            JsonParse::Invalid(m) => (WeatherConfig::Unreadable, Some(m)),
        }
    } else {
        (WeatherConfig::KeyValue(weather_config_entries(value)), None)
    };
    let mut fields: Vec<(String, usize)> = Vec::new();
    if error.is_none() {
        let keys = entry_keys(&config);
        let ghost es = config_shape(config);
        let ghost table = weather_field_table();
        let mut f: usize = 0;
        while f < 4
            invariant
                f <= 4,
                es == Seq::new(keys@.len(), |i: int| (keys@[i].0@, keys@[i].1)),
                table == weather_field_table(),
                Seq::new(fields@.len(), |i: int| (fields@[i].0@, fields@[i].1 as int)) + weather_fields(es, f as int)
                    == weather_fields(es, 0),
            decreases 4 - f,
        {
            let ghost before = fields@;
            let (out, aliases): (&str, &[&str]) = if f == 0 {
                ("location", &["location"])
            } else if f == 1 {
                ("units", &["units"])
            } else if f == 2 {
                ("showForecast", &["showForecast", "show_forecast"])
            } else {
                ("days", &["days"])
            };
            proof {
                assert(table.len() == 4);
                assert(out@ == table[f as int].0);
                assert(Seq::new(aliases@.len(), |i: int| aliases@[i]@) =~= table[f as int].1);
            }
            let ks = keys.as_slice();
            let _ = ks.len();
            let chosen = select_weather_field(ks, aliases);
            proof {
                assert(ks@ == keys@);
                assert(Seq::new(ks@.len(), |i: int| (ks@[i].0@, ks@[i].1)) =~= es);
                let av = Seq::new(aliases@.len(), |i: int| aliases@[i]@);
                assert(av =~= table[f as int].1);
                assert(chosen == (match chosen_entry(es, table[f as int].1, 0) {
                    Some(i) => Some(i as usize),
                    None => None,
                }));
            }
            let ghost head = match chosen_entry(es, table[f as int].1, 0) {
                Some(i) => seq![(table[f as int].0, i)],
                None => Seq::<(Seq<char>, int)>::empty(),
            };
            proof {
                assert(weather_fields(es, f as int) == head + weather_fields(es, f + 1));
            }
            proof {
                lemma_chosen_entry_bounds(es, table[f as int].1, 0);
            }
            if let Some(i) = chosen {
                let o = chars_of(out);
                let name = string_of_chars(&o, 0, o.len());
                proof {
                    assert(o@.subrange(0, o@.len() as int) =~= o@);
                }
                fields.push((name, i));
                proof {
                    let c = chosen_entry(es, table[f as int].1, 0);
                    assert(c is Some);
                    let j = c->0;
                    assert(0 <= j < es.len());
                    assert(es.len() == ks@.len());
                    assert(j as usize == i);
                    assert(c == Some(i as int));
                    assert(head == seq![(table[f as int].0, i as int)]);
                    assert(Seq::new(fields@.len(), |i: int| (fields@[i].0@, fields@[i].1 as int)) =~= Seq::new(
                        before.len(),
                        |i: int| (before[i].0@, before[i].1 as int),
                    ) + head);
                }
            } else {
                proof {
                    assert(head == Seq::<(Seq<char>, int)>::empty());
                    assert(Seq::new(fields@.len(), |i: int| (fields@[i].0@, fields@[i].1 as int)) =~= Seq::new(
                        before.len(),
                        |i: int| (before[i].0@, before[i].1 as int),
                    ) + head);
                }
            }
            proof {
                assert(Seq::new(fields@.len(), |i: int| (fields@[i].0@, fields@[i].1 as int)) + weather_fields(es, f + 1)
                    =~= Seq::new(before.len(), |i: int| (before[i].0@, before[i].1 as int)) + weather_fields(es, f as int));
            }
            f += 1;
        }
    }
    WeatherData { format, config, fields, error }
}

/// The value of a run of decimal digits.
pub open spec fn digits_value(d: Seq<char>) -> int
    decreases d.len(),
{
    if d.len() == 0 {
        0
    } else {
        digits_value(d.drop_last()) * 10 + (d.last() as int - '0' as int)
    }
}

/// One or more decimal digits.
pub open spec fn all_digits(d: Seq<char>) -> bool {
    d.len() > 0 && forall|k: int| 0 <= k < d.len() ==> '0' <= #[trigger] d[k] <= '9'
}

/// `s` read as an `i64` the way `str::parse::<i64>` reads it: an optional
/// `+` or `-`, then one or more decimal digits, the value in range.
pub open spec fn spec_parse_i64(s: Seq<char>) -> Option<int> {
    if s.len() > 0 && (s[0] == '-' || s[0] == '+') {
        let d = s.subrange(1, s.len() as int);
        let v = if s[0] == '-' { -digits_value(d) } else { digits_value(d) };
        if all_digits(d) && i64::MIN <= v <= i64::MAX { Some(v) } else { None }
    } else if all_digits(s) && digits_value(s) <= i64::MAX {
        Some(digits_value(s))
    } else {
        None
    }
}

proof fn lemma_digits_value_grows(d: Seq<char>, k: int)
    requires
        0 <= k <= d.len(),
        forall|j: int| 0 <= j < d.len() ==> '0' <= #[trigger] d[j] <= '9',
    ensures
        0 <= digits_value(d.take(k)) <= digits_value(d),
    decreases d.len() - k,
{
    if k < d.len() {
        lemma_digits_value_grows(d, k + 1);
        assert(d.take(k + 1).drop_last() =~= d.take(k));
        assert(d.take(k + 1).last() == d[k]);
    } else {
        assert(d.take(k) =~= d);
        lemma_digits_value_nonneg(d);
    }
}

proof fn lemma_digits_value_nonneg(d: Seq<char>)
    requires
        forall|j: int| 0 <= j < d.len() ==> '0' <= #[trigger] d[j] <= '9',
    ensures
        0 <= digits_value(d),
    decreases d.len(),
{
    if d.len() > 0 {
        lemma_digits_value_nonneg(d.drop_last());
    }
}

/// The digits of `v[lo..]` read as a magnitude no larger than `limit`.
fn digits_magnitude(v: &[char], lo: usize, limit: u64) -> (r: Option<u64>)
    requires
        lo <= v@.len(),
        limit >= 9,
    ensures
        match r {
            Some(x) => all_digits(v@.subrange(lo as int, v@.len() as int)) && x == digits_value(
                v@.subrange(lo as int, v@.len() as int),
            ) && x <= limit,
            None => !(all_digits(v@.subrange(lo as int, v@.len() as int)) && digits_value(
                v@.subrange(lo as int, v@.len() as int),
            ) <= limit),
        },
{
    let ghost d = v@.subrange(lo as int, v@.len() as int);
    let n = v.len();
    if lo == n {
        return None;
    }
    let mut k: usize = lo;
    let mut acc: u64 = 0;
    while k < n
        invariant
            lo <= k <= n == v@.len(),
            d == v@.subrange(lo as int, v@.len() as int),
            forall|j: int| lo <= j < k ==> '0' <= #[trigger] v@[j] <= '9',
            acc == digits_value(d.take(k - lo)),
            acc <= limit,
            limit >= 9,
        decreases n - k,
    {
        let c = v[k];
        if !('0' <= c && c <= '9') {
            proof {
                assert(d[k - lo] == c);
            }
            return None;
        }
        let dig = (c as u32 - '0' as u32) as u64;
        assert(dig <= 9);
        proof {
            assert(d.take(k + 1 - lo).drop_last() =~= d.take(k - lo));
            assert(d.take(k + 1 - lo).last() == c);
        }
        if acc > (limit - dig) / 10 {
            proof {
                assert(acc * 10 + dig > limit) by (nonlinear_arith)
                    requires
                        acc > (limit - dig) / 10,
                        dig <= 9,
                        limit >= 9,
                ;
                if all_digits(d) {
                    lemma_digits_value_grows(d, k + 1 - lo);
                }
            }
            return None;
        }
        assert(acc * 10 + dig <= limit) by (nonlinear_arith)
            requires
                acc <= (limit - dig) / 10,
                dig <= 9,
                limit >= 9,
        ;
        acc = acc * 10 + dig;
        k += 1;
    }
    proof {
        assert(d.take(n - lo) =~= d);
    }
    Some(acc)
}

fn parse_i64(v: &[char]) -> (r: Option<i64>)
    ensures
        match r {
            Some(x) => spec_parse_i64(v@) == Some(x as int),
            None => spec_parse_i64(v@) is None,
        },
{
    if v.len() > 0 && v[0] == '-' {
        match digits_magnitude(v, 1, 9223372036854775808u64) {
            Some(m) => {
                if m == 9223372036854775808u64 {
                    Some(i64::MIN)
                } else {
                    Some(-(m as i64))
                }
            },
            None => None,
        }
    } else if v.len() > 0 && v[0] == '+' {
        match digits_magnitude(v, 1, 9223372036854775807u64) {
            Some(m) => Some(m as i64),
            None => None,
        }
    } else {
        proof {
            assert(v@.subrange(0, v@.len() as int) =~= v@);
        }
        match digits_magnitude(v, 0, 9223372036854775807u64) {
            Some(m) => Some(m as i64),
            None => None,
        }
    }
}

/// A scalar value of a weather block's key-value configuration: empty, a
/// boolean, an integer, or text (its quotes taken off) that may still be a
/// decimal number.
pub enum WeatherScalar {
    Empty,
    Bool(bool),
    Int(i64),
    Text(String),
}

/// Whether `raw` is wrapped in a pair of `"` or of `'` (the one character
/// `"` or `'` counts as both ends).
pub open spec fn quoted(raw: Seq<char>) -> bool {
    raw.len() > 0 && ((raw[0] == '"' && raw.last() == '"') || (raw[0] == '\'' && raw.last() == '\''))
}

/// What a raw configuration value is: empty; `true` or `false`; an `i64`;
/// else its text, with one pair of wrapping quotes taken off.
pub open spec fn spec_weather_scalar(raw: Seq<char>) -> (WeatherScalarView) {
    if raw.len() == 0 {
        WeatherScalarView::Empty
    } else if raw == "true"@ {
        WeatherScalarView::Bool(true)
    } else if raw == "false"@ {
        WeatherScalarView::Bool(false)
    } else if spec_parse_i64(raw) is Some {
        WeatherScalarView::Int(spec_parse_i64(raw)->0)
    } else if quoted(raw) {
        WeatherScalarView::Text(raw.subrange(1, raw.len() - 1))
    } else {
        WeatherScalarView::Text(raw)
    }
}

/// A weather scalar as plain values.
pub enum WeatherScalarView {
    Empty,
    Bool(bool),
    Int(int),
    Text(Seq<char>),
}

impl View for WeatherScalar {
    type V = WeatherScalarView;

    open spec fn view(&self) -> WeatherScalarView {
        match self {
            WeatherScalar::Empty => WeatherScalarView::Empty,
            WeatherScalar::Bool(b) => WeatherScalarView::Bool(*b),
            WeatherScalar::Int(i) => WeatherScalarView::Int(*i as int),
            WeatherScalar::Text(t) => WeatherScalarView::Text(t@),
        }
    }
}

/// Read a raw configuration value (see `spec_weather_scalar`). A value that
/// is a lone quote character has no inside to take and is left out.
pub fn weather_scalar(raw: &str) -> (r: WeatherScalar)
    requires
        !(raw@.len() == 1 && quoted(raw@)),
    ensures
        r@ == spec_weather_scalar(raw@),
{
    let v = chars_of(raw);
    let n = v.len();
    if n == 0 {
        return WeatherScalar::Empty;
    }
    let tv = chars_of("true");
    let fv = chars_of("false");
    proof {
        assert(v@.subrange(0, n as int) =~= v@);
    }
    if chars_range_eq(&v, 0, n, &tv) {
        return WeatherScalar::Bool(true);
    }
    if chars_range_eq(&v, 0, n, &fv) {
        return WeatherScalar::Bool(false);
    }
    if let Some(i) = parse_i64(&v) {
        return WeatherScalar::Int(i);
    }
    if (v[0] == '"' && v[n - 1] == '"') || (v[0] == '\'' && v[n - 1] == '\'') {
        WeatherScalar::Text(string_of_chars(&v, 1, n - 1))
    } else {
        WeatherScalar::Text(string_of_chars(&v, 0, n))
    }
}

/// A configuration value wrapped in a pair of `"` or a pair of `'` is text:
/// its inside, the quotes taken off.
pub proof fn lemma_weather_scalar_unquotes(raw: Seq<char>)
    requires
        raw.len() >= 2,
        (raw[0] == '"' && raw[raw.len() - 1] == '"') || (raw[0] == '\'' && raw[raw.len() - 1] == '\''),
    ensures
        spec_weather_scalar(raw) == WeatherScalarView::Text(raw.subrange(1, raw.len() - 1)),
{
    reveal_strlit("true");
    reveal_strlit("false");
    assert(raw != "true"@ && raw != "false"@) by {
        if raw == "true"@ {
            assert(raw[0] == 't');
        }
        if raw == "false"@ {
            assert(raw[0] == 'f');
        }
    }
    assert(!all_digits(raw));
    assert(spec_parse_i64(raw) is None);
}

/// `true` and `false` are booleans, nothing else is; an empty value is
/// empty.
pub proof fn lemma_weather_scalar_booleans(raw: Seq<char>)
    ensures
        raw == "true"@ ==> spec_weather_scalar(raw) == WeatherScalarView::Bool(true),
        raw == "false"@ ==> spec_weather_scalar(raw) == WeatherScalarView::Bool(false),
        raw.len() == 0 <==> spec_weather_scalar(raw) is Empty,
        spec_weather_scalar(raw) matches WeatherScalarView::Bool(b) ==> raw == (if b { "true"@ } else { "false"@ }),
{
    reveal_strlit("true");
    reveal_strlit("false");
}

/// A run of decimal digits, with a `-` or `+` before it or not, whose value
/// fits an `i64`, is that integer.
pub proof fn lemma_weather_scalar_integers(sign: Seq<char>, d: Seq<char>, v: int)
    requires
        sign == Seq::<char>::empty() || sign == seq!['-'] || sign == seq!['+'],
        d.len() > 0,
        forall|k: int| 0 <= k < d.len() ==> '0' <= #[trigger] d[k] <= '9',
        v == digits_value(d),
        i64::MIN <= (if sign == seq!['-'] { -v } else { v }) <= i64::MAX,
    ensures
        spec_weather_scalar(sign + d) == WeatherScalarView::Int(if sign == seq!['-'] { -v } else { v }),
{
    reveal_strlit("true");
    reveal_strlit("false");
    let raw = sign + d;
    if sign.len() == 1 {
        assert(raw.subrange(1, raw.len() as int) =~= d);
        assert(raw[0] == sign[0]);
    } else {
        assert(raw =~= d);
    }
    assert(raw != "true"@ && raw != "false"@) by {
        if raw == "true"@ || raw == "false"@ {
            assert(raw[raw.len() - 1] == d[d.len() - 1]);
        }
    }
}

} // verus!

//! Documents: JSON, and TOML read as the same values.
use vstd::prelude::*;
use vstd::string::*;

use crate::text::{decimal, push_decimal};

verus! {

/// A JSON value of serde_json.
#[verifier::external_type_specification]
#[verifier::external_body]
pub struct ExValue(serde_json::Value);

/// What a JSON value stands for.
#[verifier::ext_equal]
pub enum JsonView {
    /// `null`.
    Null,
    /// `true` or `false`.
    Bool(bool),
    /// An integer that is not negative.
    Unsigned(u64),
    /// A negative integer.
    Negative(i64),
    /// Any other number, as text.
    Real(Seq<char>),
    /// A string.
    Text(Seq<char>),
    /// A list of values.
    List(Seq<JsonView>),
    /// The entries of an object, in order.
    Object(Seq<(Seq<char>, JsonView)>),
}

/// What a value of serde_json holds: what taking it apart with `node`, and the
/// values in it likewise, gives.
pub uninterp spec fn content(value: serde_json::Value) -> JsonView;

/// What reading bytes as a JSON document gives: its value, or the text of the
/// error. It is what `serde_json::from_slice` gives.
pub uninterp spec fn json_read(bytes: Seq<u8>) -> Result<JsonView, Seq<char>>;

/// What reading a text as a TOML document gives: its value, or the text of the
/// error. It is what `toml::from_str` gives.
pub uninterp spec fn toml_read(text: Seq<char>) -> Result<JsonView, Seq<char>>;

/// The bytes of a JSON value with line breaks and indentation: what
/// `serde_json::to_vec_pretty` gives.
pub uninterp spec fn json_pretty(value: JsonView) -> Seq<u8>;

/// The text of a string with quotes and escapes, as `{:?}` writes it.
pub uninterp spec fn debug_quoted(s: Seq<char>) -> Seq<char>;

/// A JSON value, one level deep.
#[derive(Debug)]
pub enum Node {
    /// `null`.
    Null,
    /// `true` or `false`.
    Bool(bool),
    /// An integer that is not negative.
    Unsigned(u64),
    /// A negative integer.
    Negative(i64),
    /// Any other number, as text.
    Real(String),
    /// A string.
    Text(String),
    /// A list of values.
    List(Vec<serde_json::Value>),
    /// The entries of an object, in order.
    Object(Vec<(String, serde_json::Value)>),
}

/// What the values of a list hold.
pub open spec fn contents(values: Seq<serde_json::Value>) -> Seq<JsonView> {
    values.map_values(|v: serde_json::Value| content(v))
}

/// What the entries of an object hold.
pub open spec fn entry_contents(entries: Seq<(String, serde_json::Value)>) -> Seq<
    (Seq<char>, JsonView),
> {
    entries.map_values(|e: (String, serde_json::Value)| (e.0@, content(e.1)))
}

impl View for Node {
    type V = JsonView;

    open spec fn view(&self) -> JsonView {
        match self {
            Node::Null => JsonView::Null,
            Node::Bool(b) => JsonView::Bool(*b),
            Node::Unsigned(n) => JsonView::Unsigned(*n),
            Node::Negative(n) => JsonView::Negative(*n),
            Node::Real(s) => JsonView::Real(s@),
            Node::Text(s) => JsonView::Text(s@),
            Node::List(v) => JsonView::List(contents(v@)),
            Node::Object(v) => JsonView::Object(entry_contents(v@)),
        }
    }
}

/// The keys of an object's entries.
pub open spec fn entry_keys(entries: Seq<(Seq<char>, JsonView)>) -> Seq<Seq<char>> {
    entries.map_values(|e: (Seq<char>, JsonView)| e.0)
}

/// Whether a value holds no number but integers and nests at most `depth` deep.
pub open spec fn is_plain(value: JsonView, depth: nat) -> bool
    decreases depth,
{
    match value {
        JsonView::Real(_) => false,
        JsonView::List(items) => depth > 0 && forall|i: int|
            0 <= i < items.len() ==> #[trigger] is_plain(items[i], (depth - 1) as nat),
        JsonView::Object(entries) => depth > 0 && forall|i: int|
            0 <= i < entries.len() ==> is_plain((#[trigger] entries[i]).1, (depth - 1) as nat),
        _ => true,
    }
}

/// Whether bytes are read as a value.
pub open spec fn reads_as(bytes: Seq<u8>, value: JsonView) -> bool {
    json_read(bytes) == Result::<JsonView, Seq<char>>::Ok(value)
}

/// How deep a document may nest to be read.
pub const MAX_DEPTH: u64 = 127;

/// `serde_json::from_slice`: reads bytes as a JSON document. An error comes as
/// its text.
#[verifier::external_body]
fn from_slice(bytes: &[u8]) -> (r: Result<serde_json::Value, String>)
    ensures
        match r {
            Ok(value) => json_read(bytes@) == Result::<JsonView, Seq<char>>::Ok(content(value)),
            Err(e) => json_read(bytes@) == Result::<JsonView, Seq<char>>::Err(e@),
        },
{
    serde_json::from_slice(bytes).map_err(|e| e.to_string())
}

/// `toml::from_str`: reads a text as a TOML document. An error comes as its
/// text.
#[verifier::external_body]
fn from_str(text: &str) -> (r: Result<serde_json::Value, String>)
    ensures
        match r {
            Ok(value) => toml_read(text@) == Result::<JsonView, Seq<char>>::Ok(content(value)),
            Err(e) => toml_read(text@) == Result::<JsonView, Seq<char>>::Err(e@),
        },
{
    toml::from_str(text).map_err(|e| e.to_string())
}

/// The variants of `serde_json::Value`, with `Number::as_u64`, `as_i64` and
/// the number's `Display`: takes a value apart, one level.
#[verifier::external_body]
pub(crate) fn node(value: serde_json::Value) -> (r: Node)
    ensures
        r@ == content(value),
{
    match value {
        serde_json::Value::Null => Node::Null,
        serde_json::Value::Bool(b) => Node::Bool(b),
        serde_json::Value::Number(n) => match (n.as_u64(), n.as_i64()) {
            (Some(n), _) => Node::Unsigned(n),
            (None, Some(n)) => Node::Negative(n),
            (None, None) => Node::Real(n.to_string()),
        },
        serde_json::Value::String(s) => Node::Text(s),
        serde_json::Value::Array(v) => Node::List(v),
        serde_json::Value::Object(m) => Node::Object(m.into_iter().collect()),
    }
}

/// The variants of `serde_json::Value`: puts a value together, one level. The
/// entries of an object keep their order, and each key occurs once.
#[verifier::external_body]
pub(crate) fn value(node: Node) -> (r: serde_json::Value)
    requires
        node !is Real,
        node matches Node::Negative(n) ==> n < 0,
        node@ matches JsonView::Object(entries) ==> entry_keys(entries).no_duplicates(),
    ensures
        content(r) == node@,
{
    match node {
        Node::Null => serde_json::Value::Null,
        Node::Bool(b) => serde_json::Value::from(b),
        Node::Unsigned(n) => serde_json::Value::from(n),
        Node::Negative(n) => serde_json::Value::from(n),
        Node::Real(s) | Node::Text(s) => serde_json::Value::from(s),
        Node::List(v) => serde_json::Value::Array(v),
        Node::Object(v) => serde_json::Value::Object(v.into_iter().collect()),
    }
}

/// `serde_json::to_vec_pretty` on a value, which it never refuses. What was
/// written, with a line break behind it, is read back, as long as it holds no
/// number but integers and nests no deeper than the reader goes.
#[verifier::external_body]
fn to_vec_pretty(value: &serde_json::Value) -> (r: Vec<u8>)
    ensures
        r@ == json_pretty(content(*value)),
        is_plain(content(*value), MAX_DEPTH as nat) ==> reads_as(r@.push(10), content(*value)),
{
    serde_json::to_vec_pretty(value).unwrap_or_default()
}

/// `Debug` of `str`: a string with quotes and escapes.
#[verifier::external_body]
fn debug_text(s: &str) -> (r: String)
    ensures
        r@ == debug_quoted(s@),
{
    format!("{s:?}")
}

/// Reads a JSON document.
pub fn read_json(bytes: &[u8]) -> (r: Result<Node, String>)
    ensures
        match r {
            Ok(node) => json_read(bytes@) == Result::<JsonView, Seq<char>>::Ok(node@),
            Err(e) => json_read(bytes@) == Result::<JsonView, Seq<char>>::Err(e@),
        },
{
    match from_slice(bytes) {
        Ok(value) => Ok(node(value)),
        Err(e) => Err(e),
    }
}

/// Reads a TOML document.
pub fn read_toml(text: &str) -> (r: Result<Node, String>)
    ensures
        match r {
            Ok(node) => toml_read(text@) == Result::<JsonView, Seq<char>>::Ok(node@),
            Err(e) => toml_read(text@) == Result::<JsonView, Seq<char>>::Err(e@),
        },
{
    match from_str(text) {
        Ok(value) => Ok(node(value)),
        Err(e) => Err(e),
    }
}

/// Writes a JSON document, with line breaks and indentation and a line break at
/// the end. What was written is read back, as long as it holds no number but
/// integers and nests no deeper than the reader goes.
pub fn write_json(document: Node) -> (r: Vec<u8>)
    requires
        document !is Real,
        document matches Node::Negative(n) ==> n < 0,
        document@ matches JsonView::Object(entries) ==> entry_keys(entries).no_duplicates(),
    ensures
        r@ == json_pretty(document@).push(10),
        is_plain(document@, MAX_DEPTH as nat) ==> reads_as(r@, document@),
{
    let mut out = to_vec_pretty(&value(document));
    out.push(10);
    out
}

/// The absolute value of an integer.
pub open spec fn magnitude(n: i64) -> nat {
    if n < 0 {
        (-n) as nat
    } else {
        n as nat
    }
}

/// A value as the subject of an error.
pub open spec fn unexpected(value: JsonView) -> Seq<char> {
    match value {
        JsonView::Null => "null"@,
        JsonView::Bool(b) => if b {
            "boolean `true`"@
        } else {
            "boolean `false`"@
        },
        JsonView::Unsigned(n) => "integer `"@ + decimal(n as nat) + "`"@,
        JsonView::Negative(n) => "integer `-"@ + decimal(magnitude(n)) + "`"@,
        JsonView::Real(s) => "floating point `"@ + s + "`"@,
        JsonView::Text(s) => "string "@ + debug_quoted(s),
        JsonView::List(_) => "sequence"@,
        JsonView::Object(_) => "map"@,
    }
}

/// Why a value of the wrong type is refused.
pub open spec fn invalid_type(value: JsonView, expected: Seq<char>) -> Seq<char> {
    "invalid type: "@ + unexpected(value) + ", expected "@ + expected
}

/// Why a value of the right type is refused.
pub open spec fn invalid_value(value: JsonView, expected: Seq<char>) -> Seq<char> {
    "invalid value: "@ + unexpected(value) + ", expected "@ + expected
}

fn magnitude_of(n: i64) -> (r: u64)
    ensures
        r == magnitude(n),
{
    if n >= 0 {
        n as u64
    } else if n == i64::MIN {
        0x8000_0000_0000_0000
    } else {
        (-n) as u64
    }
}

fn push_unexpected(out: &mut String, node: &Node)
    ensures
        final(out)@ == old(out)@ + unexpected(node@),
{
    let ghost before = out@;
    match node {
        Node::Null => out.append("null"),
        Node::Bool(b) => out.append(
            if *b {
                "boolean `true`"
            } else {
                "boolean `false`"
            },
        ),
        Node::Unsigned(n) => {
            out.append("integer `");
            push_decimal(out, *n);
            out.append("`");
        },
        Node::Negative(n) => {
            out.append("integer `-");
            push_decimal(out, magnitude_of(*n));
            out.append("`");
        },
        Node::Real(s) => {
            out.append("floating point `");
            out.append(s.as_str());
            out.append("`");
        },
        Node::Text(s) => {
            out.append("string ");
            out.append(debug_text(s.as_str()).as_str());
        },
        Node::List(_) => out.append("sequence"),
        Node::Object(_) => out.append("map"),
    }
    assert(out@ =~= before + unexpected(node@));
}

/// Why a value of the wrong type is refused.
pub fn type_error(node: &Node, expected: &str) -> (r: String)
    ensures
        r@ == invalid_type(node@, expected@),
{
    let mut out = String::new();
    out.append("invalid type: ");
    push_unexpected(&mut out, node);
    out.append(", expected ");
    out.append(expected);
    assert(out@ =~= invalid_type(node@, expected@));
    out
}

/// Why a value of the right type is refused.
pub fn value_error(node: &Node, expected: &str) -> (r: String)
    ensures
        r@ == invalid_value(node@, expected@),
{
    let mut out = String::new();
    out.append("invalid value: ");
    push_unexpected(&mut out, node);
    out.append(", expected ");
    out.append(expected);
    assert(out@ =~= invalid_value(node@, expected@));
    out
}

} // verus!

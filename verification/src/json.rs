use vstd::prelude::*;

verus! {

/// `serde_json::Value`, declared so that parsed documents can be carried
/// through this crate.  The crate never looks inside such a value except
/// through the trusted functions below.
#[verifier::external_type_specification]
#[verifier::external_body]
pub struct ExValue(serde_json::Value);

/// Whether `serde_json::from_str` accepts `s` as a JSON document.
pub uninterp spec fn json_wf(s: Seq<char>) -> bool;

/// What a parsed JSON value holds at the depth the keyword loader reads:
/// for an array, its elements in order, each a string's characters or
/// `None` for a non-string element; `None` for any non-array value.  A
/// `serde_json::Value` is immutable parsed data, so this is a function of
/// the value alone.
pub uninterp spec fn value_items(v: serde_json::Value) -> Option<Seq<Option<Seq<char>>>>;

/// The characters a parsed JSON string value holds; `None` for any other
/// value.
pub uninterp spec fn value_text(v: serde_json::Value) -> Option<Seq<char>>;

/// The top-level entries of the JSON document `s` when its top level is an
/// object: each key, in ascending order with no repeats, paired with what
/// its value holds (as `value_items` reads a value); `None` when the top
/// level is some other JSON value.  Meaningful only where `json_wf` holds.
pub uninterp spec fn json_doc_entries(s: Seq<char>) -> Option<
    Seq<(Seq<char>, Option<Seq<Option<Seq<char>>>>)>,
>;

/// A parsed keyword document: the top-level object's entries in key order,
/// or a marker that the top level was some other JSON value.
pub enum ParsedDoc {
    Mapping(Vec<(String, serde_json::Value)>),
    Other,
}

/// Relies on serde_json::from_str: it is a function of the text alone and
/// returns Err exactly on text that is not valid JSON (the Err carries the
/// parser's own description); and on serde_json::Map (backed by an ordered
/// map): a top-level object's entries come out with distinct keys in
/// ascending order, duplicate keys already resolved at parse time.
#[verifier::external_body]
pub(crate) fn parse_top(s: &str) -> (r: Result<ParsedDoc, String>)
    ensures
        r is Err <==> !json_wf(s@),
        r matches Ok(d) ==> (d is Mapping <==> json_doc_entries(s@) is Some),
        (r matches Ok(ParsedDoc::Mapping(entries)) ==> entries@.map_values(
            |p: (String, serde_json::Value)| (p.0@, value_items(p.1)),
        ) == json_doc_entries(s@).unwrap()),
{
    match serde_json::from_str::<serde_json::Value>(s) {
        Err(e) => Err(e.to_string()),
        Ok(serde_json::Value::Object(m)) => Ok(ParsedDoc::Mapping(m.into_iter().collect())),
        Ok(serde_json::Value::Null) => Ok(ParsedDoc::Other),
        Ok(serde_json::Value::Bool(_)) => Ok(ParsedDoc::Other),
        Ok(serde_json::Value::Number(_)) => Ok(ParsedDoc::Other),
        Ok(serde_json::Value::String(_)) => Ok(ParsedDoc::Other),
        Ok(serde_json::Value::Array(_)) => Ok(ParsedDoc::Other),
    }
}

/// Relies on serde_json::Value: an Array's elements are handed back in
/// order — exactly the elements `value_items` names — and any other value
/// yields None.
#[verifier::external_body]
pub(crate) fn value_array(v: serde_json::Value) -> (r: Option<Vec<serde_json::Value>>)
    ensures
        (r is Some) == (value_items(v) is Some),
        (r matches Some(items) ==> items@.map_values(|it: serde_json::Value| value_text(it))
            == value_items(v).unwrap()),
{
    match v {
        serde_json::Value::Array(a) => Some(a),
        serde_json::Value::Null => None,
        serde_json::Value::Bool(_) => None,
        serde_json::Value::Number(_) => None,
        serde_json::Value::String(_) => None,
        serde_json::Value::Object(_) => None,
    }
}

/// Relies on serde_json::Value: a String's text is handed back — exactly
/// the characters `value_text` names — and any other value yields None.
#[verifier::external_body]
pub(crate) fn value_string(v: serde_json::Value) -> (r: Option<String>)
    ensures
        (r is Some) == (value_text(v) is Some),
        (r matches Some(t) ==> t@ == value_text(v).unwrap()),
{
    match v {
        serde_json::Value::String(t) => Some(t),
        serde_json::Value::Null => None,
        serde_json::Value::Bool(_) => None,
        serde_json::Value::Number(_) => None,
        serde_json::Value::Array(_) => None,
        serde_json::Value::Object(_) => None,
    }
}

} // verus!

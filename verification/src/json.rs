//! JSON documents, put together and written by `serde_json`.
use serde_json::Value;
use vstd::prelude::*;

verus! {

/// A JSON document. The entries of an object stand in the order in which they are written.
pub enum Json {
    Null,
    Number(int),
    Text(Seq<char>),
    Array(Seq<Json>),
    Object(Seq<(Seq<char>, Json)>),
}

/// A document of `serde_json`: opaque, and known by its content.
#[verifier::external_type_specification]
#[verifier::external_body]
pub struct ExValue(Value);

/// The error of `serde_json`: opaque, and handed on.
#[verifier::external_type_specification]
#[verifier::external_body]
pub struct ExJsonError(serde_json::Error);

/// The content of a document.
pub uninterp spec fn json_tree(value: Value) -> Json;

/// A document as text on one line.
pub uninterp spec fn json_compact(tree: Json) -> Seq<char>;

/// A document as indented text.
pub uninterp spec fn json_pretty(tree: Json) -> Seq<char>;

/// The contents of documents.
pub open spec fn json_trees(values: Seq<Value>) -> Seq<Json> {
    Seq::new(values.len(), |i: int| json_tree(values[i]))
}

/// The contents of named documents.
pub open spec fn json_entries(entries: Seq<(String, Value)>) -> Seq<(Seq<char>, Json)> {
    Seq::new(entries.len(), |i: int| (entries[i].0@, json_tree(entries[i].1)))
}

/// No name occurs twice.
pub open spec fn distinct_names(entries: Seq<(Seq<char>, Json)>) -> bool {
    forall|i: int, j: int|
        0 <= i < j < entries.len() ==> (#[trigger] entries[i]).0 != (#[trigger] entries[j]).0
}

/// `Value::Null`: the document `null`.
#[verifier::external_body]
pub(crate) fn json_null() -> (r: Value)
    ensures
        json_tree(r) == Json::Null,
{
    Value::Null
}

/// `Value::from` on an `i64`: the document that is this number.
#[verifier::external_body]
pub(crate) fn json_signed(v: i64) -> (r: Value)
    ensures
        json_tree(r) == Json::Number(v as int),
{
    Value::from(v)
}

/// `Value::from` on a `u64`: the document that is this number.
#[verifier::external_body]
pub(crate) fn json_unsigned(v: u64) -> (r: Value)
    ensures
        json_tree(r) == Json::Number(v as int),
{
    Value::from(v)
}

/// `Value::String`: the document that is this text.
#[verifier::external_body]
pub(crate) fn json_text(s: String) -> (r: Value)
    ensures
        json_tree(r) == Json::Text(s@),
{
    Value::String(s)
}

/// `Value::Array`: the document that lists these.
#[verifier::external_body]
pub(crate) fn json_array(items: Vec<Value>) -> (r: Value)
    ensures
        json_tree(r) == Json::Array(json_trees(items@)),
{
    Value::Array(items)
}

/// `Value::Object` on a `serde_json::Map` that collects these entries: the document that holds
/// them in this order. With the crate's `preserve_order` feature such a map keeps the order in
/// which its keys came. Keys that occur twice are outside this contract.
#[verifier::external_body]
pub(crate) fn json_object(entries: Vec<(String, Value)>) -> (r: Value)
    requires
        distinct_names(json_entries(entries@)),
    ensures
        json_tree(r) == Json::Object(json_entries(entries@)),
{
    Value::Object(entries.into_iter().collect())
}

/// `serde_json::to_string`: the text depends on the content alone. It writes to memory, and the
/// keys of a document are text, so that no error comes of it.
#[verifier::external_body]
pub(crate) fn json_to_string(value: &Value) -> (r: Result<String, serde_json::Error>)
    ensures
        match r {
            Ok(s) => s@ == json_compact(json_tree(*value)),
            Err(_) => false,
        },
{
    serde_json::to_string(value)
}

/// `serde_json::to_string_pretty`: the text depends on the content alone. It writes to memory,
/// and the keys of a document are text, so that no error comes of it.
#[verifier::external_body]
pub(crate) fn json_to_string_pretty(value: &Value) -> (r: Result<String, serde_json::Error>)
    ensures
        match r {
            Ok(s) => s@ == json_pretty(json_tree(*value)),
            Err(_) => false,
        },
{
    serde_json::to_string_pretty(value)
}

/// A named value.
pub(crate) fn field(name: &str, value: Value) -> (r: (String, Value))
    ensures
        r.0@ == name@,
        r.1 == value,
{
    (name.to_owned(), value)
}

} // verus!

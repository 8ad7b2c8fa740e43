//! JSON documents, as the `serde_json` crate builds, reads and writes them.
use vstd::prelude::*;

verus! {

/// A JSON document as contracts speak of it.
pub enum Json {
    Null,
    Bool(bool),
    /// A number without a fraction or an exponent.
    Int(int),
    /// Any other number, by the text it is written with.
    Decimal(Seq<char>),
    Text(Seq<char>),
    List(Seq<Json>),
    Object(Map<Seq<char>, Json>),
}

/// `serde_json::Value`: a JSON document in memory. Not looked into.
#[verifier::external_type_specification]
#[verifier::external_body]
pub struct ExJsonValue(serde_json::Value);

/// `serde_json::Error`: why a document could not be written. Not looked into.
#[verifier::external_type_specification]
#[verifier::external_body]
pub struct ExJsonError(serde_json::Error);

/// The document that a `serde_json::Value` holds.
pub uninterp spec fn json_content(value: serde_json::Value) -> Json;

/// The text that `serde_json::to_string` writes for a document. An object's
/// members are kept in a `BTreeMap` and written in the order of their names,
/// so the text depends on nothing but the document.
pub uninterp spec fn json_text(content: Json) -> Seq<char>;

/// No two fields have the same name.
pub open spec fn distinct_names(fields: Seq<(String, serde_json::Value)>) -> bool {
    forall|i: int, j: int| 0 <= i < j < fields.len() ==> fields[i].0@ != fields[j].0@
}

/// The members of an object made of the fields.
pub open spec fn members(fields: Seq<(String, serde_json::Value)>) -> Map<Seq<char>, Json>
    decreases fields.len(),
{
    if fields.len() == 0 {
        Map::empty()
    } else {
        members(fields.drop_last()).insert(fields.last().0@, json_content(fields.last().1))
    }
}

/// `serde_json::Value::from::<i32>`: the value holds that number.
#[verifier::external_body]
pub(crate) fn number(n: i32) -> (value: serde_json::Value)
    ensures
        json_content(value) == Json::Int(n as int),
{
    serde_json::Value::from(n)
}

/// `serde_json::Value::from::<&str>`: the value holds that text.
#[verifier::external_body]
pub(crate) fn text(s: &str) -> (value: serde_json::Value)
    ensures
        json_content(value) == Json::Text(s@),
{
    serde_json::Value::from(s)
}

/// `serde_json::Value::from_iter` over pairs of a name and a value: the value
/// holds an object with exactly those members. Fields that share a name are
/// left out of the claim.
#[verifier::external_body]
pub(crate) fn object(fields: Vec<(String, serde_json::Value)>) -> (value: serde_json::Value)
    requires
        distinct_names(fields@),
    ensures
        json_content(value) == Json::Object(members(fields@)),
{
    serde_json::Value::from_iter(fields)
}

/// `serde_json::to_string` on a value: the names of an object's members are
/// strings and the text goes to memory, so it never fails, and it writes the
/// text of the document that the value holds.
#[verifier::external_body]
pub(crate) fn render(value: &serde_json::Value) -> (written: Result<String, serde_json::Error>)
    ensures
        written is Ok,
        written->Ok_0@ == json_text(json_content(*value)),
{
    serde_json::to_string(value)
}

/// Indexing a `serde_json::Value` by a name: the member of that name, or null
/// where the value holds no object or the object has no such member.
#[verifier::external_body]
pub(crate) fn member<'a>(value: &'a serde_json::Value, name: &str) -> (found:
    &'a serde_json::Value)
    ensures
        json_content(*found) == (match json_content(*value) {
            Json::Object(fields) if fields.contains_key(name@) => fields[name@],
            _ => Json::Null,
        }),
{
    &value[name]
}

/// `serde_json::Value::as_bool`: the truth value, where the value holds one.
pub assume_specification[ serde_json::Value::as_bool ](value: &serde_json::Value) -> (b: Option<
    bool,
>)
    ensures
        b == (match json_content(*value) {
            Json::Bool(x) => Some(x),
            _ => None,
        }),
;

/// An object made of fields with different names has a member for each of the
/// fields, of its name and its content, and no others.
pub proof fn law_members(fields: Seq<(String, serde_json::Value)>)
    requires
        forall|i: int, j: int| 0 <= i < j < fields.len() ==> fields[i].0@ != fields[j].0@,
    ensures
        distinct_names(fields),
        forall|i: int|
            0 <= i < fields.len() ==> members(fields).contains_key((#[trigger] fields[i]).0@)
                && members(fields)[fields[i].0@] == json_content(fields[i].1),
        forall|name: Seq<char>| #[trigger]
            members(fields).contains_key(name) ==> exists|i: int|
                0 <= i < fields.len() && (#[trigger] fields[i]).0@ == name,
    decreases fields.len(),
{
    if fields.len() > 0 {
        let rest = fields.drop_last();
        law_members(rest);
        assert forall|i: int| 0 <= i < fields.len() implies members(fields).contains_key(
            (#[trigger] fields[i]).0@,
        ) && members(fields)[fields[i].0@] == json_content(fields[i].1) by {
            if i < rest.len() {
                assert(rest[i] == fields[i]);
            }
        }
        assert forall|name: Seq<char>| #[trigger]
            members(fields).contains_key(name) implies exists|i: int|
            0 <= i < fields.len() && (#[trigger] fields[i]).0@ == name by {
            if members(rest).contains_key(name) {
                let i = choose|i: int| 0 <= i < rest.len() && (#[trigger] rest[i]).0@ == name;
                assert(fields[i].0@ == name);
            } else {
                assert(fields[fields.len() - 1].0@ == name);
            }
        }
    }
}

} // verus!

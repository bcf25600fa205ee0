//! JSON documents, as far as the library reads and extends them. The parsing and printing is
//! `serde_json`'s.

use vstd::prelude::*;

use crate::text::texts;

verus! {

/// What a JSON document says.
pub enum Json {
    Null,
    Bool(bool),
    /// A number as it is printed, with its value where it is a whole number from 0 to `u64::MAX`
    /// written as such.
    Number(Seq<char>, Option<u64>),
    Text(Seq<char>),
    Array(Seq<Json>),
    Object(Map<Seq<char>, Json>),
}

#[verifier::external_type_specification]
#[verifier::external_body]
pub struct ExValue(serde_json::Value);

/// What a parsed document says.
pub uninterp spec fn json_tree(value: serde_json::Value) -> Json;

/// What `serde_json::from_slice` makes of bytes: the document, or the message of the error.
pub uninterp spec fn json_from_slice(bytes: Seq<u8>) -> Result<Json, Seq<char>>;

/// What `serde_json::from_str` makes of a text: the document, or the message of the error.
pub uninterp spec fn json_from_str(text: Seq<char>) -> Result<Json, Seq<char>>;

/// What `serde_json::to_string_pretty` makes of a document: its text, or the message of the error.
pub uninterp spec fn json_pretty(json: Json) -> Result<Seq<char>, Seq<char>>;

/// The member of an object; null where there is none.
pub open spec fn member(json: Json, key: Seq<char>) -> Json {
    match json {
        Json::Object(members) => if members.contains_key(key) {
            members[key]
        } else {
            Json::Null
        },
        _ => Json::Null,
    }
}

/// The text of a JSON string.
pub open spec fn text_in(json: Json) -> Option<Seq<char>> {
    match json {
        Json::Text(text) => Some(text),
        _ => None,
    }
}

/// The value of a JSON number that is a whole number from 0 to `u64::MAX`.
pub open spec fn count_in(json: Json) -> Option<u64> {
    match json {
        Json::Number(_, n) => n,
        _ => None,
    }
}

/// The items of a JSON array.
pub open spec fn items_in(json: Json) -> Option<Seq<Json>> {
    match json {
        Json::Array(items) => Some(items),
        _ => None,
    }
}

/// The document that is a list of strings.
pub open spec fn strings_json(list: Seq<Seq<char>>) -> Json {
    Json::Array(list.map_values(|text: Seq<char>| Json::Text(text)))
}

/// The strings of a JSON array that holds nothing else.
pub open spec fn strings_in(json: Json) -> Option<Seq<Seq<char>>> {
    match json {
        Json::Array(items) => if forall|i: int| 0 <= i < items.len() ==> #[trigger] items[i] is Text {
            Some(items.map_values(|item: Json| item->Text_0))
        } else {
            None
        },
        _ => None,
    }
}

/// The strings of a list of strings are those of the list.
pub proof fn a_list_holds_its_strings(list: Seq<Seq<char>>)
    ensures
        strings_in(strings_json(list)) == Some(list),
{
    let items = strings_json(list)->Array_0;
    assert(items.map_values(|item: Json| item->Text_0) =~= list);
}

/// `serde_json::from_slice`, for any document: what it holds, or the message of the error. Which
/// bytes it accepts and what it makes of them is only named.
#[verifier::external_body]
pub(crate) fn parse_bytes(bytes: &[u8]) -> (r: Result<serde_json::Value, String>)
    ensures
        match r {
            Ok(value) => json_from_slice(bytes@) == Ok::<Json, Seq<char>>(json_tree(value)),
            Err(message) => json_from_slice(bytes@) == Err::<Json, Seq<char>>(message@),
        },
{
    match serde_json::from_slice(bytes) {
        Ok(value) => Ok(value),
        Err(error) => Err(error.to_string()),
    }
}

/// Indexing a `serde_json::Value` by a string: the member of that name, or null where the
/// value is no object or has no such member.
#[verifier::external_body]
pub(crate) fn at<'a>(value: &'a serde_json::Value, key: &str) -> (r: &'a serde_json::Value)
    ensures
        json_tree(*r) == member(json_tree(*value), key@),
{
    &value[key]
}

/// `Value::as_str`: the text of a JSON string.
#[verifier::external_body]
pub(crate) fn as_text(value: &serde_json::Value) -> (r: Option<&str>)
    ensures
        match r {
            Some(text) => text_in(json_tree(*value)) == Some(text@),
            None => text_in(json_tree(*value)) is None,
        },
{
    value.as_str()
}

/// `Value::as_u64`: the value of a number that is a whole number from 0 to `u64::MAX`.
#[verifier::external_body]
pub(crate) fn as_count(value: &serde_json::Value) -> (r: Option<u64>)
    ensures
        r == count_in(json_tree(*value)),
{
    value.as_u64()
}

/// `Value::as_array`: the items of an array, in their order.
#[verifier::external_body]
pub(crate) fn as_items(value: &serde_json::Value) -> (r: Option<&Vec<serde_json::Value>>)
    ensures
        match r {
            Some(items) => items_in(json_tree(*value)) == Some(
                items@.map_values(|v: serde_json::Value| json_tree(v)),
            ),
            None => items_in(json_tree(*value)) is None,
        },
{
    value.as_array()
}

/// The text of the member of a document, if it is a string.
pub(crate) fn text_at(value: &serde_json::Value, key: &str) -> (r: Option<String>)
    ensures
        match r {
            Some(text) => text_in(member(json_tree(*value), key@)) == Some(text@),
            None => text_in(member(json_tree(*value), key@)) is None,
        },
{
    match as_text(at(value, key)) {
        Some(text) => Some(text.to_owned()),
        None => None,
    }
}

/// `serde_json::from_str`, for any document: what it holds, or the message of the error. Which
/// texts it accepts and what it makes of them is only named.
#[verifier::external_body]
pub(crate) fn parse_text(text: &str) -> (r: Result<serde_json::Value, String>)
    ensures
        match r {
            Ok(value) => json_from_str(text@) == Ok::<Json, Seq<char>>(json_tree(value)),
            Err(message) => json_from_str(text@) == Err::<Json, Seq<char>>(message@),
        },
{
    match serde_json::from_str(text) {
        Ok(value) => Ok(value),
        Err(error) => Err(error.to_string()),
    }
}

/// `serde_json::to_string_pretty` of a document: its text, or the message of the error; both are
/// only named.
#[verifier::external_body]
pub(crate) fn pretty(value: &serde_json::Value) -> (r: Result<String, String>)
    ensures
        match r {
            Ok(text) => json_pretty(json_tree(*value)) == Ok::<Seq<char>, Seq<char>>(text@),
            Err(message) => json_pretty(json_tree(*value)) == Err::<Seq<char>, Seq<char>>(
                message@,
            ),
        },
{
    match serde_json::to_string_pretty(value) {
        Ok(text) => Ok(text),
        Err(error) => Err(error.to_string()),
    }
}

/// `Value::is_object`.
#[verifier::external_body]
pub(crate) fn is_object(value: &serde_json::Value) -> (r: bool)
    ensures
        r == (json_tree(*value) is Object),
{
    value.is_object()
}

/// `Value::is_null`.
#[verifier::external_body]
pub(crate) fn is_null(value: &serde_json::Value) -> (r: bool)
    ensures
        r == (json_tree(*value) is Null),
{
    value.is_null()
}

/// `Value::String`: the JSON string of a text.
#[verifier::external_body]
pub(crate) fn text_value(text: String) -> (r: serde_json::Value)
    ensures
        json_tree(r) == Json::Text(text@),
{
    serde_json::Value::String(text)
}

/// Whether members can be set: in an object, and in null, which counts as an empty one.
pub open spec fn takes_members(json: Json) -> bool {
    json is Object || json is Null
}

/// The document with one member set.
pub open spec fn with_member(json: Json, key: Seq<char>, value: Json) -> Json {
    Json::Object(
        match json {
            Json::Object(members) => members,
            _ => Map::empty(),
        }.insert(key, value),
    )
}

/// Assigning to a `serde_json::Value` indexed by a string: the member is set, whether it was there
/// or not; null becomes an object.
#[verifier::external_body]
pub(crate) fn set_member(document: &mut serde_json::Value, key: &str, value: serde_json::Value)
    requires
        takes_members(json_tree(*old(document))),
    ensures
        json_tree(*final(document)) == with_member(
            json_tree(*old(document)),
            key@,
            json_tree(value),
        ),
{
    document[key] = value;
}

/// `serde_json::from_str`, for a list of strings: it succeeds on the texts of documents that are
/// arrays of nothing but strings, and gives those.
#[verifier::external_body]
pub(crate) fn parse_strings(text: &str) -> (r: Option<Vec<String>>)
    ensures
        match json_from_str(text@) {
            Ok(json) => match strings_in(json) {
                Some(list) => r is Some && texts(r->0@) == list,
                None => r is None,
            },
            Err(_) => r is None,
        },
{
    serde_json::from_str(text).ok()
}

/// `serde_json::to_string_pretty` of a list of strings. It cannot fail; the text is that of the
/// document that is the list, and reading it gives that document back.
#[verifier::external_body]
pub(crate) fn pretty_strings(list: &Vec<String>) -> (r: Option<String>)
    ensures
        match r {
            Some(text) => {
                &&& json_pretty(strings_json(texts(list@))) == Ok::<Seq<char>, Seq<char>>(text@)
                &&& json_from_str(text@) == Ok::<Json, Seq<char>>(strings_json(texts(list@)))
            },
            None => false,
        },
{
    serde_json::to_string_pretty(list).ok()
}

/// What is read of a document depends on its kind: only a string has a text, only a number a count
/// and only an array items, and each has exactly its own.
pub proof fn a_document_is_read_by_its_kind(
    text: Seq<char>,
    numeral: Seq<char>,
    count: Option<u64>,
    items: Seq<Json>,
    json: Json,
)
    ensures
        text_in(Json::Text(text)) == Some(text),
        count_in(Json::Number(numeral, count)) == count,
        items_in(Json::Array(items)) == Some(items),
        text_in(json) is Some ==> json == Json::Text(text_in(json)->0),
        count_in(json) is Some ==> json is Number,
        items_in(json) is Some ==> json == Json::Array(items_in(json)->0),
        takes_members(json) <==> json is Object || json is Null,
{
}

/// The member of an object is what stands under its key, and null where nothing does; setting one
/// puts the value there, and null counts as an object without members.
pub proof fn a_member_stands_under_its_key(
    members: Map<Seq<char>, Json>,
    key: Seq<char>,
    value: Json,
)
    ensures
        member(Json::Object(members.insert(key, value)), key) == value,
        !members.contains_key(key) ==> member(Json::Object(members), key) is Null,
        member(Json::Null, key) is Null,
        with_member(Json::Object(members), key, value) == Json::Object(members.insert(key, value)),
        with_member(Json::Null, key, value) == Json::Object(Map::empty().insert(key, value)),
{
}

/// A list of strings is an array with a string for each, in their order; an array that holds anything
/// else is none.
pub proof fn a_list_of_strings_holds_nothing_else(list: Seq<Seq<char>>, items: Seq<Json>, i: int)
    ensures
        strings_json(list) is Array,
        strings_json(list)->Array_0.len() == list.len(),
        0 <= i < list.len() ==> strings_json(list)->Array_0[i] == Json::Text(list[i]),
        0 <= i < items.len() && !(items[i] is Text) ==> strings_in(Json::Array(items)) is None,
        strings_in(Json::Null) is None,
        strings_in(Json::Object(Map::empty())) is None,
{
}

}

use vstd::prelude::*;

verus! {

/// A JSON value of `serde_json`. Nothing of its inside is visible here: what
/// it holds is read through `json_shape`.
#[verifier::external_type_specification]
#[verifier::external_body]
pub struct ExValue(serde_json::Value);

/// The error of `serde_json`, carried from the call to where it is mapped.
#[verifier::external_type_specification]
#[verifier::external_body]
pub struct ExError(serde_json::Error);

/// What a JSON value holds, as far as a time series needs it: a string, an
/// object with its members by key, or anything else.
pub enum Json {
    Text(Seq<char>),
    Object(Map<Seq<char>, Json>),
    Other,
}

/// What `value` holds.
pub uninterp spec fn json_shape(value: serde_json::Value) -> Json;

/// What the document `text` holds, `None` where `text` is not JSON.
pub uninterp spec fn json_document(text: Seq<char>) -> Option<Json>;

/// An object's members, each once, in some order.
pub open spec fn lists(entries: Seq<(Seq<char>, Json)>, members: Map<Seq<char>, Json>) -> bool {
    &&& forall|i: int|
        0 <= i < entries.len() ==> members.contains_key((#[trigger] entries[i]).0)
            && members[entries[i].0] == entries[i].1
    &&& forall|i: int, j: int|
        0 <= i < j < entries.len() ==> (#[trigger] entries[i]).0 != (#[trigger] entries[j]).0
    &&& forall|key: Seq<char>| #[trigger]
        members.contains_key(key) ==> exists|i: int|
            0 <= i < entries.len() && (#[trigger] entries[i]).0 == key
}

/// The entries as keys and shapes.
pub open spec fn entry_shapes(entries: Seq<(String, &serde_json::Value)>) -> Seq<
    (Seq<char>, Json),
> {
    entries.map_values(|e: (String, &serde_json::Value)| (e.0@, json_shape(*e.1)))
}

/// `serde_json::from_str` for a `Value`: the document that the text spells,
/// or the crate's error where the text is not JSON.
#[verifier::external_body]
pub(crate) fn parse_json(text: &str) -> (r: Result<serde_json::Value, serde_json::Error>)
    ensures
        match r {
            Ok(v) => json_document(text@) == Some(json_shape(v)),
            Err(_) => json_document(text@) is None,
        },
{
    serde_json::from_str::<serde_json::Value>(text)
}

/// `Value::get` with a string key: the member under `key` where the value is
/// an object that has one, `None` otherwise.
#[verifier::external_body]
pub(crate) fn member<'a>(value: &'a serde_json::Value, key: &str) -> (r: Option<
    &'a serde_json::Value,
>)
    ensures
        match r {
            Some(m) => json_shape(*value) matches Json::Object(members) && members.contains_key(
                key@,
            ) && members[key@] == json_shape(*m),
            None => !(json_shape(*value) matches Json::Object(members) && members.contains_key(
                key@,
            )),
        },
{
    value.get(key)
}

/// `Value::as_str`: the text where the value is a string, `None` otherwise.
#[verifier::external_body]
pub(crate) fn text_of<'a>(value: &'a serde_json::Value) -> (r: Option<&'a str>)
    ensures
        match r {
            Some(t) => json_shape(*value) == Json::Text(t@),
            None => !(json_shape(*value) is Text),
        },
{
    value.as_str()
}

/// `Value::as_object` and `Map::iter`: where the value is an object, its
/// members, each once, with a copy of its key. The order is the map's own and
/// nothing is said of it.
#[verifier::external_body]
pub(crate) fn object_entries<'a>(value: &'a serde_json::Value) -> (r: Option<
    Vec<(String, &'a serde_json::Value)>,
>)
    ensures
        match r {
            Some(entries) => json_shape(*value) matches Json::Object(members) && lists(
                entry_shapes(entries@),
                members,
            ),
            None => !(json_shape(*value) is Object),
        },
{
    value.as_object().map(|m| m.iter().map(|(k, v)| (k.clone(), v)).collect())
}

} // verus!

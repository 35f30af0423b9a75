//! Filter sets as JSON objects: the keys and scalar values of a
//! `serde_json::Map`, as far as filters use them.

use vstd::prelude::*;

verus! {

/// A JSON object from filter keys to values.
pub type FilterMap = serde_json::Map<String, serde_json::Value>;

/// What a JSON value is to a filter: a boolean, an unsigned number or a text.
/// Every other value (null, a negative or fractional number, an array, an
/// object) is of no use to any filter.
#[derive(Debug)]
pub enum FilterValue {
    Flag(bool),
    Number(u64),
    Text(String),
    Unsupported,
}

/// The mathematical form of a `FilterValue`.
pub enum FilterValueView {
    Flag(bool),
    Number(u64),
    Text(Seq<char>),
    Unsupported,
}

impl View for FilterValue {
    type V = FilterValueView;

    open spec fn view(&self) -> FilterValueView {
        match self {
            FilterValue::Flag(flag) => FilterValueView::Flag(*flag),
            FilterValue::Number(number) => FilterValueView::Number(*number),
            FilterValue::Text(text) => FilterValueView::Text(text@),
            FilterValue::Unsupported => FilterValueView::Unsupported,
        }
    }
}

/// `serde_json::Value`: any JSON value. Nothing is known of what one holds.
#[verifier::external_type_specification]
#[verifier::external_body]
pub struct ExJsonValue(serde_json::Value);

/// `serde_json::Map`: a JSON object. What one holds is known only by
/// `filter_map_contents`.
#[verifier::external_type_specification]
#[verifier::external_body]
#[verifier::reject_recursive_types(K)]
#[verifier::reject_recursive_types(V)]
pub struct ExJsonMap<K, V>(serde_json::Map<K, V>);

/// What a JSON object holds: for each of its keys the value under it, a
/// `serde_json::Value::Bool` as `Flag`, a `Value::Number` that
/// `Number::as_u64` can give as `Number`, a `Value::String` as `Text`, and any
/// other value as `Unsupported`.
pub uninterp spec fn filter_map_contents(
    filters: serde_json::Map<String, serde_json::Value>,
) -> Map<Seq<char>, FilterValueView>;

/// `entries` lists what `contents` holds: each entry is a key of `contents`
/// with its value, no key comes twice, and every key comes.
pub open spec fn lists_contents(
    entries: Seq<(String, FilterValue)>,
    contents: Map<Seq<char>, FilterValueView>,
) -> bool {
    &&& forall|i: int|
        0 <= i < entries.len() ==> contents.contains_pair(
            (#[trigger] entries[i]).0@,
            entries[i].1@,
        )
    &&& forall|i: int, j: int|
        0 <= i < j < entries.len() ==> (#[trigger] entries[i]).0@ != (#[trigger] entries[j]).0@
    &&& forall|key: Seq<char>| #[trigger]
        contents.contains_key(key) ==> exists|i: int|
            0 <= i < entries.len() && (#[trigger] entries[i]).0@ == key
}

/// `serde_json::Map::new` makes an object without keys.
#[verifier::external_body]
pub(crate) fn new_filter_map() -> (filters: serde_json::Map<String, serde_json::Value>)
    ensures
        filter_map_contents(filters) == (Map::<Seq<char>, FilterValueView>::empty()),
{
    serde_json::Map::new()
}

/// `serde_json::Map::insert` puts the value under the key, in place of the
/// value that the key had, if it had one; the other keys keep theirs.
#[verifier::external_body]
pub(crate) fn filter_map_insert(
    filters: &mut serde_json::Map<String, serde_json::Value>,
    key: &str,
    value: FilterValue,
)
    ensures
        filter_map_contents(*final(filters)) == filter_map_contents(*old(filters)).insert(
            key@,
            value@,
        ),
{
    let held = match value {
        FilterValue::Flag(flag) => serde_json::Value::Bool(flag),
        FilterValue::Number(number) => serde_json::Value::Number(number.into()),
        FilterValue::Text(text) => serde_json::Value::String(text),
        FilterValue::Unsupported => serde_json::Value::Null,
    };
    filters.insert(key.to_string(), held);
}

/// `serde_json::Map::is_empty` tells whether the object has no key.
#[verifier::external_body]
pub(crate) fn filter_map_is_empty(filters: &serde_json::Map<String, serde_json::Value>) -> (empty:
    bool)
    ensures
        empty == (forall|key: Seq<char>| !filter_map_contents(*filters).contains_key(key)),
{
    filters.is_empty()
}

/// `serde_json::Map::iter` walks the object's entries, each key once. The
/// order of the walk is left open.
#[verifier::external_body]
pub(crate) fn filter_map_entries(filters: &serde_json::Map<String, serde_json::Value>) -> (entries:
    Vec<(String, FilterValue)>)
    ensures
        lists_contents(entries@, filter_map_contents(*filters)),
{
    let mut entries = Vec::new();
    for (key, value) in filters.iter() {
        let held = match value {
            serde_json::Value::Bool(flag) => FilterValue::Flag(*flag),
            serde_json::Value::Number(number) => match number.as_u64() {
                Some(unsigned) => FilterValue::Number(unsigned),
                None => FilterValue::Unsupported,
            },
            serde_json::Value::String(text) => FilterValue::Text(text.clone()),
            _ => FilterValue::Unsupported,
        };
        entries.push((key.clone(), held));
    }
    entries
}

} // verus!

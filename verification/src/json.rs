//! JSON values: read, walked, built and written by `serde_json`.
//!
//! A `serde_json::Value` is opaque here. What it holds is a [`JsonTree`], and
//! each function below says what its `serde_json` counterpart does to that tree.

use crate::order::text_before;
use crate::text::decimal;
use vstd::prelude::*;

verus! {

#[verifier::external_type_specification]
#[verifier::external_body]
pub struct ExValue(serde_json::Value);

#[verifier::external_type_specification]
#[verifier::external_body]
pub struct ExFault(serde_json::Error);

/// What a JSON value holds. A number is the text it is written as.
pub enum JsonTree {
    Null,
    Bool(bool),
    Number(Seq<char>),
    Text(Seq<char>),
    List(Seq<JsonTree>),
    Record(Map<Seq<char>, JsonTree>),
}

/// What a `serde_json::Value` holds.
pub uninterp spec fn value_tree(v: serde_json::Value) -> JsonTree;

/// What `serde_json::from_str` reads from a text, or none where it fails.
pub uninterp spec fn json_parse(text: Seq<char>) -> Option<JsonTree>;

/// What `serde_json::to_string` writes for a value that holds a tree.
pub uninterp spec fn json_render(tree: JsonTree) -> Seq<char>;

/// How deep a text may nest lists and records for `serde_json` to read it.
pub const MAX_NESTING: u64 = 127;

impl JsonTree {
    /// The tree nests lists and records at most `depth` deep.
    pub open spec fn within(self, depth: nat) -> bool
        decreases depth,
    {
        match self {
            JsonTree::List(items) => depth > 0 && forall|i: int|
                0 <= i < items.len() ==> (#[trigger] items[i]).within((depth - 1) as nat),
            JsonTree::Record(fields) => depth > 0 && fields.dom().finite() && forall|k: Seq<char>|
                fields.dom().contains(k) ==> (#[trigger] fields[k]).within((depth - 1) as nat),
            _ => true,
        }
    }

    /// Every number in the tree, down to `depth`, is a whole one that fits a `u64`.
    pub open spec fn counts_only(self, depth: nat) -> bool
        decreases depth,
    {
        match self {
            JsonTree::Number(text) => exists|n: u64| text == #[trigger] decimal(n as nat),
            JsonTree::List(items) => depth > 0 && forall|i: int|
                0 <= i < items.len() ==> (#[trigger] items[i]).counts_only((depth - 1) as nat),
            JsonTree::Record(fields) => depth > 0 && forall|k: Seq<char>|
                fields.dom().contains(k) ==> (#[trigger] fields[k]).counts_only((depth - 1) as nat),
            _ => true,
        }
    }

    /// The field of a record.
    pub open spec fn field(self, key: Seq<char>) -> Option<JsonTree> {
        match self {
            JsonTree::Record(fields) => if fields.dom().contains(key) {
                Some(fields[key])
            } else {
                None
            },
            _ => None,
        }
    }

    /// The text, where the tree is one.
    pub open spec fn text(self) -> Option<Seq<char>> {
        match self {
            JsonTree::Text(s) => Some(s),
            _ => None,
        }
    }
}

/// A tree within one depth is within every greater one.
pub proof fn lemma_within_deeper(tree: JsonTree, a: nat, b: nat)
    requires
        tree.within(a),
        a <= b,
    ensures
        tree.within(b),
    decreases a,
{
    match tree {
        JsonTree::List(items) => {
            assert forall|i: int| 0 <= i < items.len() implies (#[trigger] items[i]).within((b - 1) as nat) by {
                lemma_within_deeper(items[i], (a - 1) as nat, (b - 1) as nat);
            }
        },
        JsonTree::Record(fields) => {
            assert forall|k: Seq<char>| fields.dom().contains(k) implies (#[trigger] fields[k]).within(
                (b - 1) as nat,
            ) by {
                lemma_within_deeper(fields[k], (a - 1) as nat, (b - 1) as nat);
            }
        },
        _ => {},
    }
}

/// What a list of values holds.
pub open spec fn value_trees(items: Seq<serde_json::Value>) -> Seq<JsonTree> {
    Seq::new(items.len(), |i: int| value_tree(items[i]))
}

/// What a list of named values holds, by name.
pub open spec fn field_map(fields: Seq<(String, serde_json::Value)>) -> Map<Seq<char>, JsonTree>
    decreases fields.len(),
{
    if fields.len() == 0 {
        Map::empty()
    } else {
        field_map(fields.drop_last()).insert(fields.last().0@, value_tree(fields.last().1))
    }
}

/// `entries` lists the fields of a record, each once, sorted by name.
pub open spec fn lists_fields(
    entries: Seq<(&str, &serde_json::Value)>,
    fields: Map<Seq<char>, JsonTree>,
) -> bool {
    &&& forall|i: int, j: int|
        0 <= i < j < entries.len() ==> text_before((#[trigger] entries[i]).0@, (#[trigger] entries[j]).0@)
    &&& forall|i: int|
        0 <= i < entries.len() ==> fields.dom().contains((#[trigger] entries[i]).0@) && fields[entries[i].0@]
            == value_tree(*entries[i].1)
    &&& forall|k: Seq<char>| #[trigger]
        fields.dom().contains(k) ==> exists|i: int| 0 <= i < entries.len() && (#[trigger] entries[i]).0@ == k
}

/// Why a text is not JSON.
#[derive(Debug)]
pub struct JsonError {
    pub cause: serde_json::Error,
}

/// `serde_json::from_str` into a `serde_json::Value`: it fails on the texts that
/// [`json_parse`] has nothing for, and what it reads nests no deeper than its
/// recursion limit allows.
#[verifier::external_body]
fn read_value(text: &str) -> (r: Result<serde_json::Value, serde_json::Error>)
    ensures
        r is Ok <==> json_parse(text@) is Some,
        r matches Ok(v) ==> json_parse(text@) == Some(value_tree(v)) && value_tree(v).within(MAX_NESTING as nat),
{
    serde_json::from_str(text)
}

/// `serde_json::to_string` of a `serde_json::Value`: it cannot fail, since the
/// keys of a record are texts. What it writes is read back as the same tree;
/// that is left unsaid of trees with a negative or fractional number in them.
/// A value that nests too deep would exhaust the stack.
#[verifier::external_body]
pub(crate) fn render_value(v: &serde_json::Value) -> (text: String)
    requires
        value_tree(*v).within(MAX_NESTING as nat),
    ensures
        text@ == json_render(value_tree(*v)),
        value_tree(*v).counts_only(MAX_NESTING as nat) ==> json_parse(text@) == Some(value_tree(*v)),
{
    serde_json::to_string(v).expect("serialize value")
}

/// `serde_json::Value::get` with a text: the field of a record, and nothing of
/// any other value.
#[verifier::external_body]
pub(crate) fn field_of<'a>(v: &'a serde_json::Value, key: &str) -> (r: Option<&'a serde_json::Value>)
    ensures
        r matches Some(x) ==> value_tree(*v).field(key@) == Some(value_tree(*x)),
        r is None ==> value_tree(*v).field(key@) is None,
{
    v.get(key)
}

/// `serde_json::Value::as_str`: the text, where the value is one.
#[verifier::external_body]
pub(crate) fn text_in(v: &serde_json::Value) -> (r: Option<&str>)
    ensures
        r matches Some(s) ==> value_tree(*v).text() == Some(s@),
        r is None ==> value_tree(*v).text() is None,
{
    v.as_str()
}

/// `serde_json::Value::as_object` and the map's `iter`: the fields of a record,
/// sorted by name, since the map is a `BTreeMap`.
#[verifier::external_body]
pub(crate) fn fields_in(v: &serde_json::Value) -> (r: Option<Vec<(&str, &serde_json::Value)>>)
    ensures
        r is Some <==> value_tree(*v) is Record,
        r matches Some(entries) ==> lists_fields(entries@, value_tree(*v)->Record_0),
{
    v.as_object().map(|m| m.iter().map(|(k, x)| (k.as_str(), x)).collect())
}

/// `serde_json::Value::clone`: a value that holds the same. A value that nests
/// too deep would exhaust the stack.
#[verifier::external_body]
pub(crate) fn copy_value(v: &serde_json::Value) -> (r: serde_json::Value)
    requires
        value_tree(*v).within(MAX_NESTING as nat),
    ensures
        value_tree(r) == value_tree(*v),
{
    v.clone()
}

/// `serde_json::Value::String`.
#[verifier::external_body]
pub(crate) fn text_value(s: String) -> (r: serde_json::Value)
    ensures
        value_tree(r) == JsonTree::Text(s@),
{
    serde_json::Value::String(s)
}

/// `serde_json::Value::from` a `u32`: a number, written in decimal.
#[verifier::external_body]
pub(crate) fn number_value(n: u32) -> (r: serde_json::Value)
    ensures
        value_tree(r) == JsonTree::Number(decimal(n as nat)),
{
    serde_json::Value::from(n)
}

/// `serde_json::Value::Array`.
#[verifier::external_body]
pub(crate) fn list_value(items: Vec<serde_json::Value>) -> (r: serde_json::Value)
    ensures
        value_tree(r) == JsonTree::List(value_trees(items@)),
{
    serde_json::Value::Array(items)
}

/// `serde_json::Value::Object` of a `serde_json::Map` collected from the fields.
#[verifier::external_body]
pub(crate) fn record_value(fields: Vec<(String, serde_json::Value)>) -> (r: serde_json::Value)
    requires
        forall|i: int, j: int|
            0 <= i < j < fields@.len() ==> (#[trigger] fields@[i]).0@ != (#[trigger] fields@[j]).0@,
    ensures
        value_tree(r) == JsonTree::Record(field_map(fields@)),
{
    serde_json::Value::Object(fields.into_iter().collect())
}

/// Reads a JSON text.
pub fn read_json(text: &str) -> (r: Result<serde_json::Value, JsonError>)
    ensures
        r is Ok <==> json_parse(text@) is Some,
        r matches Ok(v) ==> json_parse(text@) == Some(value_tree(v)) && value_tree(v).within(MAX_NESTING as nat),
{
    match read_value(text) {
        Ok(v) => Ok(v),
        Err(cause) => Err(JsonError { cause }),
    }
}

/// A text as a JSON text.
pub fn quote(s: &str) -> (text: String)
    ensures
        text@ == json_render(JsonTree::Text(s@)),
        json_parse(text@) == Some(JsonTree::Text(s@)),
{
    render_value(&text_value(s.to_string()))
}

} // verus!

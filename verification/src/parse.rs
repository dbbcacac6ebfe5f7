use crate::document::{clone_number, distinct_keys, docs_view, entries_view, Document, Entry, Json};
use crate::error::ResolveError;
use vstd::prelude::*;

verus! {

#[verifier::external_type_specification]
#[verifier::external_body]
pub struct ExValue(serde_json::Value);

#[verifier::external_type_specification]
#[verifier::external_body]
pub struct ExError(serde_json::Error);

/// The tree that a `serde_json::Value` holds.
pub uninterp spec fn value_json(value: serde_json::Value) -> Json;

/// What `serde_json::from_str` reads from a text: the tree of the value it
/// returns, or `None` where it returns an error.
pub uninterp spec fn parsed_json(text: Seq<char>) -> Option<Json>;

/// The top of a `serde_json::Value`: its variant, with the fields untouched.
pub enum Layer<'a> {
    Null,
    Boolean(bool),
    Number(&'a serde_json::Number),
    Text(&'a String),
    Sequence(&'a Vec<serde_json::Value>),
    Mapping(Vec<(&'a String, &'a serde_json::Value)>),
}

/// The trees of a run of values, in order.
pub open spec fn values_json(values: Seq<serde_json::Value>) -> Seq<Json> {
    Seq::new(values.len(), |i: int| value_json(values[i]))
}

/// The keys and trees of a run of members, in order.
pub open spec fn members_json(members: Seq<(&String, &serde_json::Value)>) -> Seq<
    (Seq<char>, Json),
> {
    Seq::new(members.len(), |i: int| (members[i].0@, value_json(*members[i].1)))
}

impl<'a> Layer<'a> {
    /// The tree whose top this layer is.
    pub open spec fn json(self) -> Json {
        match self {
            Layer::Null => Json::Null,
            Layer::Boolean(b) => Json::Boolean(b),
            Layer::Number(n) => Json::Number(*n),
            Layer::Text(s) => Json::Text(s@),
            Layer::Sequence(items) => Json::Sequence(values_json(items@)),
            Layer::Mapping(members) => Json::Mapping(members_json(members@)),
        }
    }
}

/// `serde_json::from_str` at the type `serde_json::Value`. The result depends
/// on the text alone; `parsed_json` names it.
#[verifier::external_body]
fn parse_value(text: &str) -> (parsed: Result<serde_json::Value, serde_json::Error>)
    ensures
        match parsed {
            Ok(value) => parsed_json(text@) == Some(value_json(value)),
            Err(_) => parsed_json(text@) is None,
        },
{
    serde_json::from_str::<serde_json::Value>(text)
}

/// The variants of `serde_json::Value`, one arm each. An array hands out its
/// `Vec`, an object its members in the order in which `serde_json::Map::iter`
/// walks them; a map holds no key twice.
#[verifier::external_body]
fn peel(value: &serde_json::Value) -> (layer: Layer<'_>)
    ensures
        layer.json() == value_json(*value),
        layer matches Layer::Mapping(members) ==> distinct_keys(members_json(members@)),
{
    match value {
        serde_json::Value::Null => Layer::Null,
        serde_json::Value::Bool(b) => Layer::Boolean(*b),
        serde_json::Value::Number(n) => Layer::Number(n),
        serde_json::Value::String(s) => Layer::Text(s),
        serde_json::Value::Array(items) => Layer::Sequence(items),
        serde_json::Value::Object(map) => Layer::Mapping(map.iter().collect()),
    }
}

/// `serde_json::Error`'s `Display`: the diagnostic, of which nothing is
/// claimed.
#[verifier::external_body]
fn error_text(error: &serde_json::Error) -> String {
    error.to_string()
}

/// Builds the document that `value` holds.
pub fn document_of(value: &serde_json::Value) -> (doc: Document)
    ensures
        doc@ == value_json(*value),
        doc@.well_formed(),
    decreases value_json(*value),
{
    match peel(value) {
        Layer::Null => Document::Null,
        Layer::Boolean(b) => Document::Boolean(b),
        Layer::Number(n) => Document::Number(clone_number(n)),
        Layer::Text(s) => Document::Text(s.clone()),
        Layer::Sequence(items) => {
            let mut docs: Vec<Document> = Vec::new();
            let mut at: usize = 0;
            while at < items.len()
                invariant
                    value_json(*value) is Sequence,
                    value_json(*value)->Sequence_0 == values_json(items@),
                    at <= items.len(),
                    docs.len() == at,
                    forall|i: int|
                        0 <= i < at ==> (#[trigger] docs@[i])@ == value_json(items@[i])
                            && docs@[i]@.well_formed(),
                decreases items.len() - at,
            {
                assert(values_json(items@)[at as int] == value_json(items@[at as int]));
                docs.push(document_of(&items[at]));
                at += 1;
            }
            assert(docs_view(docs@) =~= values_json(items@));
            Document::Sequence(docs)
        },
        Layer::Mapping(members) => {
            let mut entries: Vec<Entry> = Vec::new();
            let mut at: usize = 0;
            while at < members.len()
                invariant
                    value_json(*value) is Mapping,
                    value_json(*value)->Mapping_0 == members_json(members@),
                    at <= members.len(),
                    entries.len() == at,
                    forall|i: int|
                        0 <= i < at ==> (#[trigger] entries@[i])@ == members_json(members@)[i]
                            && entries@[i].value@.well_formed(),
                decreases members.len() - at,
            {
                assert(members_json(members@)[at as int].1 == value_json(*members@[at as int].1));
                let value = document_of(members[at].1);
                entries.push(Entry { key: members[at].0.clone(), value });
                at += 1;
            }
            assert(entries_view(entries@) =~= members_json(members@));
            Document::Mapping(entries)
        },
    }
}

/// Reads a document from its text.
pub fn parse_document(text: &str) -> (parsed: Result<Document, ResolveError>)
    ensures
        match parsed {
            Ok(doc) => parsed_json(text@) == Some(doc@) && doc@.well_formed(),
            Err(error) => parsed_json(text@) is None && error is Parse,
        },
{
    match parse_value(text) {
        Ok(value) => Ok(document_of(&value)),
        Err(error) => Err(ResolveError::Parse(error_text(&error))),
    }
}

} // verus!

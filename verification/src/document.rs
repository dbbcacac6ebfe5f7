use crate::text::same_text;
use vstd::prelude::*;

verus! {

#[verifier::external_type_specification]
#[verifier::external_body]
pub struct ExNumber(serde_json::Number);

/// The mathematical value of a document: a tree of scalars, sequences and
/// mappings. A mapping is the sequence of its entries in declaration order.
pub enum Json {
    Null,
    Boolean(bool),
    Number(serde_json::Number),
    Text(Seq<char>),
    Sequence(Seq<Json>),
    Mapping(Seq<(Seq<char>, Json)>),
}

/// One key of a mapping together with its value.
#[derive(Debug, PartialEq, Eq)]
pub struct Entry {
    pub key: String,
    pub value: Document,
}

/// A manifest or any part of one.
#[derive(Debug, PartialEq, Eq)]
pub enum Document {
    Null,
    Boolean(bool),
    Number(serde_json::Number),
    Text(String),
    Sequence(Vec<Document>),
    Mapping(Vec<Entry>),
}

/// The values of a run of documents, in order.
pub open spec fn docs_view(docs: Seq<Document>) -> Seq<Json>
    decreases docs,
{
    Seq::new(
        docs.len(),
        |i: int|
            if 0 <= i < docs.len() {
                docs[i].view()
            } else {
                Json::Null
            },
    )
}

/// The keys and values of a run of entries, in order.
pub open spec fn entries_view(entries: Seq<Entry>) -> Seq<(Seq<char>, Json)>
    decreases entries,
{
    Seq::new(
        entries.len(),
        |i: int|
            if 0 <= i < entries.len() {
                (entries[i].key@, entries[i].value.view())
            } else {
                (Seq::empty(), Json::Null)
            },
    )
}

impl View for Document {
    type V = Json;

    open spec fn view(&self) -> Json
        decreases self,
    {
        match self {
            Document::Null => Json::Null,
            Document::Boolean(b) => Json::Boolean(*b),
            Document::Number(n) => Json::Number(*n),
            Document::Text(s) => Json::Text(s@),
            Document::Sequence(items) => Json::Sequence(docs_view(items@)),
            Document::Mapping(entries) => Json::Mapping(entries_view(entries@)),
        }
    }
}

impl View for Entry {
    type V = (Seq<char>, Json);

    open spec fn view(&self) -> (Seq<char>, Json) {
        (self.key@, self.value@)
    }
}

/// Whether some entry carries `key`.
pub open spec fn has_key(entries: Seq<(Seq<char>, Json)>, key: Seq<char>) -> bool {
    exists|i: int| 0 <= i < entries.len() && (#[trigger] entries[i]).0 == key
}

/// Whether position `at` holds the first entry that carries `key`.
pub open spec fn is_first_with_key(entries: Seq<(Seq<char>, Json)>, key: Seq<char>, at: int) -> bool {
    &&& 0 <= at < entries.len()
    &&& entries[at].0 == key
    &&& forall|j: int| 0 <= j < at ==> (#[trigger] entries[j]).0 != key
}

/// Position of the first entry that carries `key`, where there is one.
pub open spec fn key_position(entries: Seq<(Seq<char>, Json)>, key: Seq<char>) -> int {
    choose|at: int| is_first_with_key(entries, key, at)
}

/// The value found under `key`.
pub open spec fn value_at(entries: Seq<(Seq<char>, Json)>, key: Seq<char>) -> Option<Json> {
    if has_key(entries, key) {
        Some(entries[key_position(entries, key)].1)
    } else {
        None
    }
}

/// The entries after `value` has been inserted under `key`: an entry that
/// already carries the key keeps its place and takes the new value, a new key
/// goes to the end.
pub open spec fn with_entry(entries: Seq<(Seq<char>, Json)>, key: Seq<char>, value: Json) -> Seq<
    (Seq<char>, Json),
> {
    if has_key(entries, key) {
        entries.update(key_position(entries, key), (key, value))
    } else {
        entries.push((key, value))
    }
}

/// The entries that do not carry `key`, in their order.
pub open spec fn without_key(entries: Seq<(Seq<char>, Json)>, key: Seq<char>) -> Seq<
    (Seq<char>, Json),
> {
    entries.filter(|entry: (Seq<char>, Json)| entry.0 != key)
}

/// The keys of the entries, in order.
pub open spec fn keys_of(entries: Seq<(Seq<char>, Json)>) -> Seq<Seq<char>> {
    Seq::new(entries.len(), |i: int| entries[i].0)
}

/// No key occurs twice.
pub open spec fn distinct_keys(entries: Seq<(Seq<char>, Json)>) -> bool {
    forall|i: int, j: int|
        0 <= i < j < entries.len() ==> (#[trigger] entries[i]).0 != (#[trigger] entries[j]).0
}

impl Json {
    /// The value under `key`, where `self` is a mapping that has the key.
    pub open spec fn member(self, key: Seq<char>) -> Option<Json> {
        match self {
            Json::Mapping(entries) => value_at(entries, key),
            _ => None,
        }
    }

    /// Every mapping in the tree has distinct keys.
    pub open spec fn well_formed(self) -> bool
        decreases self,
    {
        match self {
            Json::Sequence(items) => forall|i: int|
                0 <= i < items.len() ==> (#[trigger] items[i]).well_formed(),
            Json::Mapping(entries) => {
                &&& distinct_keys(entries)
                &&& forall|i: int|
                    0 <= i < entries.len() ==> (#[trigger] entries[i]).1.well_formed()
            },
            _ => true,
        }
    }
}

/// Among the first `bound` entries, either none carries `key` or one of them
/// is the first to do so.
proof fn lemma_first_below(entries: Seq<(Seq<char>, Json)>, key: Seq<char>, bound: int)
    requires
        0 <= bound <= entries.len(),
    ensures
        (forall|j: int| 0 <= j < bound ==> (#[trigger] entries[j]).0 != key) || (exists|at: int|
            at < bound && is_first_with_key(entries, key, at)),
    decreases bound,
{
    if bound > 0 {
        lemma_first_below(entries, key, bound - 1);
        if forall|j: int| 0 <= j < bound - 1 ==> (#[trigger] entries[j]).0 != key {
            if entries[bound - 1].0 == key {
                assert(is_first_with_key(entries, key, bound - 1));
            }
        }
    }
}

/// A key that occurs has a first occurrence, and `key_position` names it.
pub proof fn lemma_key_position(entries: Seq<(Seq<char>, Json)>, key: Seq<char>)
    requires
        has_key(entries, key),
    ensures
        is_first_with_key(entries, key, key_position(entries, key)),
{
    lemma_first_below(entries, key, entries.len() as int);
}

/// The first occurrence of a key is unique.
pub proof fn lemma_first_is_key_position(entries: Seq<(Seq<char>, Json)>, key: Seq<char>, at: int)
    requires
        is_first_with_key(entries, key, at),
    ensures
        has_key(entries, key),
        key_position(entries, key) == at,
{
    let chosen = key_position(entries, key);
    assert(is_first_with_key(entries, key, chosen));
    if chosen < at {
        assert(entries[chosen].0 != key);
    }
    if at < chosen {
        assert(entries[at].0 != key);
    }
}

/// Inserting keeps keys distinct, and keeps the keys themselves when the key
/// was there already.
pub proof fn lemma_with_entry_keys(entries: Seq<(Seq<char>, Json)>, key: Seq<char>, value: Json)
    requires
        distinct_keys(entries),
    ensures
        distinct_keys(with_entry(entries, key, value)),
        has_key(with_entry(entries, key, value), key),
        has_key(entries, key) ==> keys_of(with_entry(entries, key, value)) == keys_of(entries),
        !has_key(entries, key) ==> keys_of(with_entry(entries, key, value)) == keys_of(
            entries,
        ).push(key),
{
    let after = with_entry(entries, key, value);
    if has_key(entries, key) {
        lemma_key_position(entries, key);
        let at = key_position(entries, key);
        assert(after[at].0 == key);
        assert forall|i: int, j: int| 0 <= i < j < after.len() implies (#[trigger] after[i]).0 != (
        #[trigger] after[j]).0 by {
            assert(after[i].0 == entries[i].0);
            assert(after[j].0 == entries[j].0);
        }
        assert(keys_of(after) =~= keys_of(entries));
    } else {
        assert(after[entries.len() as int].0 == key);
        assert forall|i: int, j: int| 0 <= i < j < after.len() implies (#[trigger] after[i]).0 != (
        #[trigger] after[j]).0 by {
            if j < entries.len() {
                assert(after[i] == entries[i]);
                assert(after[j] == entries[j]);
            } else {
                assert(after[i] == entries[i]);
            }
        }
        assert(keys_of(after) =~= keys_of(entries).push(key));
    }
}

/// After an insertion every entry is the inserted one or stands where it
/// stood.
pub proof fn lemma_with_entry_members(entries: Seq<(Seq<char>, Json)>, key: Seq<char>, value: Json)
    ensures
        entries.len() <= with_entry(entries, key, value).len() <= entries.len() + 1,
        forall|i: int|
            0 <= i < with_entry(entries, key, value).len() ==> #[trigger] with_entry(
                entries,
                key,
                value,
            )[i] == (key, value) || (i < entries.len() && with_entry(entries, key, value)[i]
                == entries[i]),
{
    if has_key(entries, key) {
        lemma_key_position(entries, key);
    }
}

/// What is left without `key` after one more entry.
pub proof fn lemma_without_key_push(
    entries: Seq<(Seq<char>, Json)>,
    next: (Seq<char>, Json),
    key: Seq<char>,
)
    ensures
        without_key(entries.push(next), key) == if next.0 != key {
            without_key(entries, key).push(next)
        } else {
            without_key(entries, key)
        },
{
    reveal(Seq::filter);
    assert(entries.push(next).drop_last() =~= entries);
}

/// `serde_json::Number::clone`: the copy is the number itself.
#[verifier::external_body]
pub(crate) fn clone_number(number: &serde_json::Number) -> (copy: serde_json::Number)
    ensures
        copy == *number,
{
    number.clone()
}

impl Clone for Entry {
    fn clone(&self) -> (copy: Self)
        ensures
            copy@ == self@,
        decreases self,
    {
        Entry { key: self.key.clone(), value: self.value.clone() }
    }
}

impl Clone for Document {
    /// A copy that shares nothing with `self`.
    fn clone(&self) -> (copy: Self)
        ensures
            copy@ == self@,
        decreases self,
    {
        match self {
            Document::Null => Document::Null,
            Document::Boolean(b) => Document::Boolean(*b),
            Document::Number(n) => Document::Number(clone_number(n)),
            Document::Text(s) => Document::Text(s.clone()),
            Document::Sequence(items) => {
                let mut copies: Vec<Document> = Vec::new();
                let mut at: usize = 0;
                while at < items.len()
                    invariant
                        self is Sequence,
                        self->Sequence_0 == *items,
                        at <= items.len(),
                        copies.len() == at,
                        forall|i: int| 0 <= i < at ==> (#[trigger] copies@[i])@ == items@[i]@,
                    decreases items.len() - at,
                {
                    copies.push(items[at].clone());
                    at += 1;
                }
                assert(docs_view(copies@) =~= docs_view(items@));
                Document::Sequence(copies)
            },
            Document::Mapping(entries) => {
                let mut copies: Vec<Entry> = Vec::new();
                let mut at: usize = 0;
                while at < entries.len()
                    invariant
                        self is Mapping,
                        self->Mapping_0 == *entries,
                        at <= entries.len(),
                        copies.len() == at,
                        forall|i: int| 0 <= i < at ==> (#[trigger] copies@[i])@ == entries@[i]@,
                    decreases entries.len() - at,
                {
                    copies.push(entries[at].clone());
                    at += 1;
                }
                assert(entries_view(copies@) =~= entries_view(entries@));
                Document::Mapping(copies)
            },
        }
    }
}

/// Finds the first entry that carries `key`.
pub fn find_entry(entries: &Vec<Entry>, key: &str) -> (found: Option<usize>)
    ensures
        match found {
            Some(at) => is_first_with_key(entries_view(entries@), key@, at as int),
            None => !has_key(entries_view(entries@), key@),
        },
{
    let mut at: usize = 0;
    while at < entries.len()
        invariant
            at <= entries.len(),
            forall|j: int| 0 <= j < at ==> (#[trigger] entries_view(entries@)[j]).0 != key@,
        decreases entries.len() - at,
    {
        if same_text(entries[at].key.as_str(), key) {
            return Some(at);
        }
        at += 1;
    }
    None
}

/// Inserts `value` under `key`: an entry that already carries the key keeps
/// its place and takes the new value, a new key goes to the end.
pub fn put_entry(entries: &mut Vec<Entry>, key: String, value: Document)
    ensures
        entries_view(final(entries)@) == with_entry(entries_view(old(entries)@), key@, value@),
{
    let ghost before = entries_view(entries@);
    match find_entry(entries, key.as_str()) {
        Some(at) => {
            proof {
                lemma_first_is_key_position(before, key@, at as int);
            }
            entries.set(at, Entry { key, value });
            assert(entries_view(entries@) =~= before.update(at as int, (key@, value@)));
        },
        None => {
            entries.push(Entry { key, value });
            assert(entries_view(entries@) =~= before.push((key@, value@)));
        },
    }
}

impl Document {
    /// The value under `key`, where `self` is a mapping that has the key.
    pub fn get(&self, key: &str) -> (found: Option<&Document>)
        ensures
            match found {
                Some(value) => self@.member(key@) == Some(value@),
                None => self@.member(key@) is None,
            },
    {
        match self {
            Document::Mapping(entries) => match find_entry(entries, key) {
                Some(at) => {
                    proof {
                        lemma_first_is_key_position(entries_view(entries@), key@, at as int);
                    }
                    Some(&entries[at].value)
                },
                None => None,
            },
            _ => None,
        }
    }
}

} // verus!

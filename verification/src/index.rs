use crate::document::{
    docs_view, entries_view, find_entry, has_key, is_first_with_key, key_position, keys_of,
    lemma_first_is_key_position, lemma_key_position, put_entry, with_entry, Document, Entry,
    Json,
};
use crate::text::id_key;
use vstd::prelude::*;

verus! {

/// The mappings found below a mapping, in the order of the walk: for each
/// entry in turn, a value that is a mapping counts and is walked itself; of a
/// value that is a sequence, each element that is a mapping counts and is
/// walked. Nothing is found below a document that is no mapping.
pub open spec fn nested_objects(doc: Json) -> Seq<Json>
    decreases doc, 0nat, 0nat,
{
    match doc {
        Json::Mapping(entries) => objects_in_entries(entries, entries.len()),
        _ => Seq::empty(),
    }
}

/// What the first `count` entries contribute to `nested_objects`.
pub open spec fn objects_in_entries(entries: Seq<(Seq<char>, Json)>, count: nat) -> Seq<Json>
    decreases entries, count, 0nat,
{
    if count == 0 || count > entries.len() {
        Seq::empty()
    } else {
        objects_in_entries(entries, (count - 1) as nat) + objects_of_value(entries[count - 1].1)
    }
}

/// What the value of one entry contributes to `nested_objects`.
pub open spec fn objects_of_value(value: Json) -> Seq<Json>
    decreases value, 0nat, 1nat,
{
    match value {
        Json::Mapping(_) => seq![value] + nested_objects(value),
        Json::Sequence(items) => objects_in_items(items, items.len()),
        _ => Seq::empty(),
    }
}

/// What the first `count` elements of a sequence contribute to
/// `nested_objects`.
pub open spec fn objects_in_items(items: Seq<Json>, count: nat) -> Seq<Json>
    decreases items, count, 0nat,
{
    if count == 0 || count > items.len() {
        Seq::empty()
    } else {
        objects_in_items(items, (count - 1) as nat) + object_of_item(items[count - 1])
    }
}

/// What one element of a sequence contributes to `nested_objects`.
pub open spec fn object_of_item(item: Json) -> Seq<Json>
    decreases item, 0nat, 1nat,
{
    if item is Mapping {
        seq![item] + nested_objects(item)
    } else {
        Seq::empty()
    }
}

/// The identifier of an object: the text under its `id` key.
pub open spec fn identifier(object: Json) -> Option<Seq<char>> {
    match object.member(id_key()) {
        Some(Json::Text(id)) => Some(id),
        _ => None,
    }
}

/// The index of a run of objects: each object that has an identifier stands
/// under it, and of two objects with one identifier the later one stays.
pub open spec fn index_of(objects: Seq<Json>) -> Map<Seq<char>, Json>
    decreases objects.len(),
{
    if objects.len() == 0 {
        Map::empty()
    } else {
        let earlier = index_of(objects.drop_last());
        match identifier(objects.last()) {
            Some(id) => earlier.insert(id, objects.last()),
            None => earlier,
        }
    }
}

/// The map that a run of entries stands for: each key with the value of its
/// first entry.
pub open spec fn entries_map(entries: Seq<(Seq<char>, Json)>) -> Map<Seq<char>, Json> {
    Map::new(
        |key: Seq<char>| has_key(entries, key),
        |key: Seq<char>| entries[key_position(entries, key)].1,
    )
}

/// Inserting into the entries inserts into the map they stand for.
pub proof fn lemma_entries_map_insert(entries: Seq<(Seq<char>, Json)>, key: Seq<char>, value: Json)
    ensures
        entries_map(with_entry(entries, key, value)) == entries_map(entries).insert(key, value),
{
    let after = with_entry(entries, key, value);
    let at = if has_key(entries, key) {
        lemma_key_position(entries, key);
        key_position(entries, key)
    } else {
        entries.len() as int
    };
    assert(after[at] == (key, value));
    assert(is_first_with_key(after, key, at)) by {
        assert forall|j: int| 0 <= j < at implies (#[trigger] after[j]).0 != key by {
            assert(after[j] == entries[j]);
        }
    }
    lemma_first_is_key_position(after, key, at);
    assert forall|other: Seq<char>| other != key implies has_key(after, other) == has_key(
        entries,
        other,
    ) && (has_key(entries, other) ==> after[key_position(after, other)].1
        == entries[key_position(entries, other)].1) by {
        if has_key(entries, other) {
            lemma_key_position(entries, other);
            let there = key_position(entries, other);
            assert(after[there] == entries[there]);
            assert(is_first_with_key(after, other, there)) by {
                assert forall|j: int| 0 <= j < there implies (#[trigger] after[j]).0 != other by {
                    if j != at {
                        assert(after[j] == entries[j]);
                    }
                }
            }
            lemma_first_is_key_position(after, other, there);
        }
        if has_key(after, other) {
            lemma_key_position(after, other);
            let there = key_position(after, other);
            assert(there != at);
            assert(entries[there] == after[there]);
        }
    }
    assert(entries_map(after) =~= entries_map(entries).insert(key, value));
}

/// The map holds finitely many keys.
pub proof fn lemma_entries_map_finite(entries: Seq<(Seq<char>, Json)>)
    ensures
        entries_map(entries).dom().finite(),
{
    let keys = keys_of(entries);
    vstd::seq_lib::seq_to_set_is_finite(keys);
    assert forall|key: Seq<char>| entries_map(entries).dom().contains(key) implies keys.to_set().contains(
        key,
    ) by {
        let i = choose|i: int| 0 <= i < entries.len() && (#[trigger] entries[i]).0 == key;
        assert(keys[i] == key);
    }
    vstd::set_lib::lemma_len_subset(entries_map(entries).dom(), keys.to_set());
}

/// The objects of a document by identifier.
#[derive(Debug)]
pub struct ObjectIndex {
    entries: Vec<Entry>,
}

impl View for ObjectIndex {
    type V = Map<Seq<char>, Json>;

    closed spec fn view(&self) -> Map<Seq<char>, Json> {
        entries_map(entries_view(self.entries@))
    }
}

impl ObjectIndex {
    /// An index without objects.
    pub fn new() -> (index: Self)
        ensures
            index@ == Map::<Seq<char>, Json>::empty(),
    {
        let index = ObjectIndex { entries: Vec::new() };
        assert(index@ =~= Map::<Seq<char>, Json>::empty());
        index
    }

    /// Puts `object` under `id`, in place of what stood there.
    pub fn insert(&mut self, id: String, object: Document)
        ensures
            final(self)@ == old(self)@.insert(id@, object@),
    {
        proof {
            lemma_entries_map_insert(entries_view(self.entries@), id@, object@);
        }
        put_entry(&mut self.entries, id, object);
    }

    /// The object under `id`.
    pub fn get(&self, id: &str) -> (found: Option<&Document>)
        ensures
            match found {
                Some(object) => self@.dom().contains(id@) && self@[id@] == object@,
                None => !self@.dom().contains(id@),
            },
    {
        match find_entry(&self.entries, id) {
            Some(at) => {
                proof {
                    lemma_first_is_key_position(entries_view(self.entries@), id@, at as int);
                }
                Some(&self.entries[at].value)
            },
            None => None,
        }
    }

    /// The index holds finitely many identifiers.
    pub proof fn lemma_finite(&self)
        ensures
            self@.dom().finite(),
    {
        lemma_entries_map_finite(entries_view(self.entries@));
    }
}

/// Appends to `found` the mappings below `doc`, in the order of the walk.
fn collect_objects(doc: &Document, found: &mut Vec<Document>)
    ensures
        docs_view(final(found)@) == docs_view(old(found)@) + nested_objects(doc@),
    decreases doc, 0nat, 0nat,
{
    match doc {
        Document::Mapping(entries) => {
            let ghost before = docs_view(found@);
            let mut at: usize = 0;
            while at < entries.len()
                invariant
                    doc is Mapping,
                    doc->Mapping_0 == *entries,
                    at <= entries.len(),
                    docs_view(found@) == before + objects_in_entries(
                        entries_view(entries@),
                        at as nat,
                    ),
                decreases entries.len() - at,
            {
                let ghost so_far = docs_view(found@);
                collect_from_value(&entries[at].value, found);
                proof {
                    assert(entries_view(entries@)[at as int].1 == entries@[at as int].value@);
                    assert(so_far + objects_of_value(entries@[at as int].value@) =~= before + (
                    objects_in_entries(entries_view(entries@), at as nat) + objects_of_value(
                        entries@[at as int].value@,
                    )));
                }
                at += 1;
            }
        },
        _ => {
            assert(docs_view(found@) + nested_objects(doc@) =~= docs_view(found@));
        },
    }
}

/// Appends to `found` what the value of one entry contributes.
fn collect_from_value(value: &Document, found: &mut Vec<Document>)
    ensures
        docs_view(final(found)@) == docs_view(old(found)@) + objects_of_value(value@),
    decreases value, 0nat, 2nat,
{
    let ghost before = docs_view(found@);
    match value {
        Document::Mapping(_) => {
            collect_from_item(value, found);
        },
        Document::Sequence(items) => {
            let mut at: usize = 0;
            while at < items.len()
                invariant
                    value is Sequence,
                    value->Sequence_0 == *items,
                    at <= items.len(),
                    docs_view(found@) == before + objects_in_items(docs_view(items@), at as nat),
                decreases items.len() - at,
            {
                let ghost so_far = docs_view(found@);
                collect_from_item(&items[at], found);
                proof {
                    assert(docs_view(items@)[at as int] == items@[at as int]@);
                    assert(so_far + object_of_item(items@[at as int]@) =~= before + (
                    objects_in_items(docs_view(items@), at as nat) + object_of_item(
                        items@[at as int]@,
                    )));
                }
                at += 1;
            }
        },
        _ => {
            assert(before + objects_of_value(value@) =~= before);
        },
    }
}

/// Appends to `found` what one element of a sequence contributes.
fn collect_from_item(item: &Document, found: &mut Vec<Document>)
    ensures
        docs_view(final(found)@) == docs_view(old(found)@) + object_of_item(item@),
    decreases item, 0nat, 1nat,
{
    let ghost before = docs_view(found@);
    match item {
        Document::Mapping(_) => {
            found.push(item.clone());
            assert(docs_view(found@) =~= before + seq![item@]);
            collect_objects(item, found);
            assert(docs_view(found@) =~= before + (seq![item@] + nested_objects(item@)));
        },
        _ => {
            assert(before + object_of_item(item@) =~= before);
        },
    }
}

/// Lists the mappings below `doc`, in the order of the walk.
pub fn extract_objects(doc: &Document) -> (objects: Vec<Document>)
    ensures
        docs_view(objects@) == nested_objects(doc@),
{
    let mut objects: Vec<Document> = Vec::new();
    collect_objects(doc, &mut objects);
    assert(docs_view(objects@) =~= nested_objects(doc@));
    objects
}

/// The identifier of `object`, where it has one.
pub fn identifier_of(object: &Document) -> (id: Option<String>)
    ensures
        match id {
            Some(id) => identifier(object@) == Some(id@),
            None => identifier(object@) is None,
        },
{
    proof {
        reveal_strlit("id");
        assert("id"@ =~= id_key());
    }
    match object.get("id") {
        Some(Document::Text(id)) => Some(id.clone()),
        _ => None,
    }
}

/// Builds the index of the objects below `doc`.
pub fn build_index(doc: &Document) -> (index: ObjectIndex)
    ensures
        index@ == index_of(nested_objects(doc@)),
{
    let objects = extract_objects(doc);
    let mut index = ObjectIndex::new();
    let mut at: usize = 0;
    while at < objects.len()
        invariant
            at <= objects.len(),
            index@ == index_of(docs_view(objects@).take(at as int)),
        decreases objects.len() - at,
    {
        proof {
            let next = docs_view(objects@).take(at + 1);
            assert(next.drop_last() =~= docs_view(objects@).take(at as int));
            assert(next.last() == objects@[at as int]@);
        }
        match identifier_of(&objects[at]) {
            Some(id) => {
                index.insert(id, objects[at].clone());
            },
            None => {},
        }
        at += 1;
    }
    assert(docs_view(objects@).take(objects.len() as int) =~= docs_view(objects@));
    index
}

} // verus!

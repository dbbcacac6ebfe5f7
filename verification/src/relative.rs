use crate::document::{
    distinct_keys, docs_view, entries_view, has_key, keys_of, lemma_with_entry_keys,
    lemma_with_entry_members, lemma_without_key_push, put_entry, with_entry, without_key,
    Document, Entry, Json,
};
use crate::error::{Fault, ResolveError};
use crate::index::{build_index, index_of, nested_objects, ObjectIndex};
use crate::text::{has_marker, id_key, same_text, starts_with, RELATIVE_MARKER};
use vstd::prelude::*;

verus! {

/// An object without its identifier field; anything else as it is.
pub open spec fn stripped(value: Json) -> Json {
    match value {
        Json::Mapping(entries) => Json::Mapping(without_key(entries, id_key())),
        _ => value,
    }
}

/// How many objects of the index are not being resolved.
pub open spec fn unvisited(index: Map<Seq<char>, Json>, active: Set<Seq<char>>) -> nat {
    index.dom().difference(active).len()
}

/// Taking up one more object of the index leaves fewer to visit.
pub proof fn lemma_unvisited_shrinks(
    index: Map<Seq<char>, Json>,
    active: Set<Seq<char>>,
    id: Seq<char>,
)
    requires
        index.dom().finite(),
        index.dom().contains(id),
        !active.contains(id),
    ensures
        unvisited(index, active.insert(id)) < unvisited(index, active),
{
    let before = index.dom().difference(active);
    let after = index.dom().difference(active.insert(id));
    vstd::set_lib::lemma_len_subset(before, index.dom());
    assert(before.contains(id));
    assert(after =~= before.remove(id));
}

/// The document with every relative reference replaced by the object it
/// names. `active` holds the identifiers of the objects that are being
/// resolved around `doc`.
///
/// A mapping is rebuilt entry by entry; each value is inserted under its own,
/// unchanged key. A sequence is rebuilt element by element. A scalar stays.
/// The first fault met in that order ends the pass.
pub open spec fn relative_resolution(
    doc: Json,
    index: Map<Seq<char>, Json>,
    active: Set<Seq<char>>,
) -> Result<Json, Fault>
    decreases unvisited(index, active), doc, 0nat,
    when index.dom().finite()
{
    match doc {
        Json::Mapping(entries) => match relative_entries(entries, entries.len(), index, active) {
            Ok(resolved) => Ok(Json::Mapping(resolved)),
            Err(fault) => Err(fault),
        },
        Json::Sequence(items) => match relative_items(items, items.len(), index, active) {
            Ok(resolved) => Ok(Json::Sequence(resolved)),
            Err(fault) => Err(fault),
        },
        _ => Ok(doc),
    }
}

/// The first `count` entries of a mapping, resolved and inserted in order.
pub open spec fn relative_entries(
    entries: Seq<(Seq<char>, Json)>,
    count: nat,
    index: Map<Seq<char>, Json>,
    active: Set<Seq<char>>,
) -> Result<Seq<(Seq<char>, Json)>, Fault>
    decreases unvisited(index, active), entries, count,
    when index.dom().finite()
{
    if count == 0 || count > entries.len() {
        Ok(Seq::empty())
    } else {
        match relative_entries(entries, (count - 1) as nat, index, active) {
            Ok(resolved) => match relative_value(
                entries[count - 1].0,
                entries[count - 1].1,
                index,
                active,
            ) {
                Ok(value) => Ok(with_entry(resolved, entries[count - 1].0, value)),
                Err(fault) => Err(fault),
            },
            Err(fault) => Err(fault),
        }
    }
}

/// The first `count` elements of a sequence, resolved in order.
pub open spec fn relative_items(
    items: Seq<Json>,
    count: nat,
    index: Map<Seq<char>, Json>,
    active: Set<Seq<char>>,
) -> Result<Seq<Json>, Fault>
    decreases unvisited(index, active), items, count,
    when index.dom().finite()
{
    if count == 0 || count > items.len() {
        Ok(Seq::empty())
    } else {
        match relative_items(items, (count - 1) as nat, index, active) {
            Ok(resolved) => match relative_resolution(items[count - 1], index, active) {
                Ok(item) => Ok(resolved.push(item)),
                Err(fault) => Err(fault),
            },
            Err(fault) => Err(fault),
        }
    }
}

/// What takes the place of `value` under `key`. A mapping or a sequence is
/// resolved. A text under a key with the relative marker names an object of
/// the index: the object, without its identifier field, is resolved in turn,
/// with the identifier added to `active`. It is a fault if the index has no
/// such object, or if the object is being resolved already. Everything else
/// stays as it is.
pub open spec fn relative_value(
    key: Seq<char>,
    value: Json,
    index: Map<Seq<char>, Json>,
    active: Set<Seq<char>>,
) -> Result<Json, Fault>
    decreases unvisited(index, active), value, 1nat,
    when index.dom().finite()
{
    match value {
        Json::Mapping(_) => relative_resolution(value, index, active),
        Json::Sequence(_) => relative_resolution(value, index, active),
        Json::Text(id) => if starts_with(key, RELATIVE_MARKER) {
            if !index.dom().contains(id) {
                Err(Fault::MissingReference { id })
            } else if active.contains(id) {
                Err(Fault::Cycle { id })
            } else {
                proof {
                    lemma_unvisited_shrinks(index, active, id);
                }
                relative_resolution(stripped(index[id]), index, active.insert(id))
            }
        } else {
            Ok(value)
        },
        _ => Ok(value),
    }
}

/// The value of an outcome.
pub open spec fn resolved_view(resolved: Result<Document, ResolveError>) -> Result<Json, Fault> {
    match resolved {
        Ok(doc) => Ok(doc@),
        Err(error) => Err(error@),
    }
}

/// The texts that a run of strings holds.
pub open spec fn texts(strings: Seq<String>) -> Set<Seq<char>> {
    Set::new(|text: Seq<char>| exists|i: int| 0 <= i < strings.len() && (#[trigger] strings[i])@ == text)
}

/// A fault among the first entries is the fault of the whole mapping.
proof fn lemma_entries_fault(
    entries: Seq<(Seq<char>, Json)>,
    count: nat,
    upto: nat,
    index: Map<Seq<char>, Json>,
    active: Set<Seq<char>>,
)
    requires
        index.dom().finite(),
        count <= upto <= entries.len(),
        relative_entries(entries, count, index, active) is Err,
    ensures
        relative_entries(entries, upto, index, active) == relative_entries(
            entries,
            count,
            index,
            active,
        ),
    decreases upto - count,
{
    if count < upto {
        lemma_entries_fault(entries, count, (upto - 1) as nat, index, active);
    }
}

/// A fault among the first elements is the fault of the whole sequence.
proof fn lemma_items_fault(
    items: Seq<Json>,
    count: nat,
    upto: nat,
    index: Map<Seq<char>, Json>,
    active: Set<Seq<char>>,
)
    requires
        index.dom().finite(),
        count <= upto <= items.len(),
        relative_items(items, count, index, active) is Err,
    ensures
        relative_items(items, upto, index, active) == relative_items(items, count, index, active),
    decreases upto - count,
{
    if count < upto {
        lemma_items_fault(items, count, (upto - 1) as nat, index, active);
    }
}

/// Relative resolution keeps the keys of a mapping and resolves each value
/// by itself: where no key of the mapping occurs twice, the resolved mapping
/// has the same keys in the same places, markers included, and under each the
/// value that `relative_value` gives for that entry.
pub proof fn lemma_relative_keeps_keys(
    entries: Seq<(Seq<char>, Json)>,
    index: Map<Seq<char>, Json>,
    active: Set<Seq<char>>,
)
    requires
        index.dom().finite(),
        distinct_keys(entries),
    ensures
        relative_resolution(Json::Mapping(entries), index, active) matches Ok(resolved) ==> {
            &&& resolved matches Json::Mapping(out)
            &&& keys_of(out) == keys_of(entries)
            &&& forall|i: int|
                0 <= i < entries.len() ==> relative_value(
                    entries[i].0,
                    entries[i].1,
                    index,
                    active,
                ) == Ok::<Json, Fault>((#[trigger] out[i]).1)
        },
{
    lemma_entries_in_place(entries, entries.len(), index, active);
    if let Ok(out) = relative_entries(entries, entries.len(), index, active) {
        assert(keys_of(out) =~= keys_of(entries));
    }
}

/// The first entries of a mapping without a repeated key resolve each in its
/// place.
proof fn lemma_entries_in_place(
    entries: Seq<(Seq<char>, Json)>,
    count: nat,
    index: Map<Seq<char>, Json>,
    active: Set<Seq<char>>,
)
    requires
        index.dom().finite(),
        distinct_keys(entries),
        count <= entries.len(),
    ensures
        relative_entries(entries, count, index, active) matches Ok(out) ==> {
            &&& out.len() == count
            &&& forall|i: int|
                0 <= i < count ==> (#[trigger] out[i]).0 == entries[i].0 && relative_value(
                    entries[i].0,
                    entries[i].1,
                    index,
                    active,
                ) == Ok::<Json, Fault>(out[i].1)
        },
    decreases count,
{
    if count > 0 {
        lemma_entries_in_place(entries, (count - 1) as nat, index, active);
        if let Ok(earlier) = relative_entries(entries, (count - 1) as nat, index, active) {
            let key = entries[count - 1].0;
            if has_key(earlier, key) {
                let i = choose|i: int| 0 <= i < earlier.len() && (#[trigger] earlier[i]).0 == key;
                assert(entries[i].0 == entries[count - 1].0);
            }
        }
    }
}

/// Two references to one identifier resolve to equal objects, under whatever
/// keys they stand.
pub proof fn lemma_same_reference_same_object(
    entries: Seq<(Seq<char>, Json)>,
    index: Map<Seq<char>, Json>,
    active: Set<Seq<char>>,
    first: int,
    second: int,
)
    requires
        index.dom().finite(),
        distinct_keys(entries),
        0 <= first < entries.len(),
        0 <= second < entries.len(),
        starts_with(entries[first].0, RELATIVE_MARKER),
        starts_with(entries[second].0, RELATIVE_MARKER),
        entries[first].1 is Text,
        entries[first].1 == entries[second].1,
    ensures
        relative_resolution(Json::Mapping(entries), index, active) matches Ok(resolved) ==> {
            &&& resolved matches Json::Mapping(out)
            &&& out[first].1 == out[second].1
            &&& relative_resolution(
                stripped(index[entries[first].1->Text_0]),
                index,
                active.insert(entries[first].1->Text_0),
            ) == Ok::<Json, Fault>(out[first].1)
        },
{
    lemma_relative_keeps_keys(entries, index, active);
    if let Ok(Json::Mapping(out)) = relative_resolution(Json::Mapping(entries), index, active) {
        assert(relative_value(entries[first].0, entries[first].1, index, active) == Ok::<
            Json,
            Fault,
        >(out[first].1));
        assert(relative_value(entries[second].0, entries[second].1, index, active) == Ok::<
            Json,
            Fault,
        >(out[second].1));
    }
}

/// A reference to an identifier that the index does not hold is a fault,
/// whatever else the index holds.
pub proof fn lemma_missing_reference_fails(
    key: Seq<char>,
    id: Seq<char>,
    index: Map<Seq<char>, Json>,
    active: Set<Seq<char>>,
)
    requires
        index.dom().finite(),
        starts_with(key, RELATIVE_MARKER),
        !index.dom().contains(id),
    ensures
        relative_resolution(Json::Mapping(seq![(key, Json::Text(id))]), index, active) == Err::<
            Json,
            Fault,
        >(Fault::MissingReference { id }),
{
    let entries = seq![(key, Json::Text(id))];
    assert(entries.len() == 1);
    assert(entries[0] == (key, Json::Text(id)));
    assert(relative_entries(entries, 0, index, active) is Ok);
    assert(relative_value(key, Json::Text(id), index, active) == Err::<Json, Fault>(
        Fault::MissingReference { id },
    ));
    assert(relative_entries(entries, 1, index, active) == Err::<Seq<(Seq<char>, Json)>, Fault>(
        Fault::MissingReference { id },
    ));
}

/// What relative resolution yields holds no mapping with a key twice,
/// whatever the document and the index.
pub proof fn lemma_relative_well_formed(
    doc: Json,
    index: Map<Seq<char>, Json>,
    active: Set<Seq<char>>,
)
    requires
        index.dom().finite(),
    ensures
        relative_resolution(doc, index, active) matches Ok(resolved) ==> resolved.well_formed(),
    decreases unvisited(index, active), doc, 0nat,
{
    match doc {
        Json::Mapping(entries) => lemma_entries_well_formed(entries, entries.len(), index, active),
        Json::Sequence(items) => lemma_items_well_formed(items, items.len(), index, active),
        _ => {},
    }
}

/// The entries that resolution has built have distinct keys and well-formed
/// values.
proof fn lemma_entries_well_formed(
    entries: Seq<(Seq<char>, Json)>,
    count: nat,
    index: Map<Seq<char>, Json>,
    active: Set<Seq<char>>,
)
    requires
        index.dom().finite(),
    ensures
        relative_entries(entries, count, index, active) matches Ok(out) ==> distinct_keys(out)
            && forall|i: int| 0 <= i < out.len() ==> (#[trigger] out[i]).1.well_formed(),
    decreases unvisited(index, active), entries, count,
{
    if !(count == 0 || count > entries.len()) {
        lemma_entries_well_formed(entries, (count - 1) as nat, index, active);
        if let Ok(earlier) = relative_entries(entries, (count - 1) as nat, index, active) {
            let key = entries[count - 1].0;
            lemma_value_well_formed(key, entries[count - 1].1, index, active);
            if let Ok(value) = relative_value(key, entries[count - 1].1, index, active) {
                lemma_with_entry_keys(earlier, key, value);
                lemma_with_entry_members(earlier, key, value);
            }
        }
    }
}

/// The elements that resolution has built are well formed.
proof fn lemma_items_well_formed(
    items: Seq<Json>,
    count: nat,
    index: Map<Seq<char>, Json>,
    active: Set<Seq<char>>,
)
    requires
        index.dom().finite(),
    ensures
        relative_items(items, count, index, active) matches Ok(out) ==> forall|i: int|
            0 <= i < out.len() ==> (#[trigger] out[i]).well_formed(),
    decreases unvisited(index, active), items, count,
{
    if !(count == 0 || count > items.len()) {
        lemma_items_well_formed(items, (count - 1) as nat, index, active);
        lemma_relative_well_formed(items[count - 1], index, active);
    }
}

/// The value that resolution puts in place of another is well formed.
proof fn lemma_value_well_formed(
    key: Seq<char>,
    value: Json,
    index: Map<Seq<char>, Json>,
    active: Set<Seq<char>>,
)
    requires
        index.dom().finite(),
    ensures
        relative_value(key, value, index, active) matches Ok(resolved) ==> resolved.well_formed(),
    decreases unvisited(index, active), value, 1nat,
{
    match value {
        Json::Mapping(_) => lemma_relative_well_formed(value, index, active),
        Json::Sequence(_) => lemma_relative_well_formed(value, index, active),
        Json::Text(id) => {
            if starts_with(key, RELATIVE_MARKER) && index.dom().contains(id) && !active.contains(
                id,
            ) {
                lemma_unvisited_shrinks(index, active, id);
                lemma_relative_well_formed(stripped(index[id]), index, active.insert(id));
            }
        },
        _ => {},
    }
}

/// Copies `value` without its identifier field.
pub fn strip_id(value: &Document) -> (bare: Document)
    ensures
        bare@ == stripped(value@),
{
    match value {
        Document::Mapping(entries) => {
            let mut kept: Vec<Entry> = Vec::new();
            let mut at: usize = 0;
            proof {
                reveal(Seq::filter);
                assert(entries_view(kept@) =~= without_key(
                    entries_view(entries@).take(0),
                    id_key(),
                ));
            }
            while at < entries.len()
                invariant
                    at <= entries.len(),
                    entries_view(kept@) == without_key(
                        entries_view(entries@).take(at as int),
                        id_key(),
                    ),
                decreases entries.len() - at,
            {
                proof {
                    reveal_strlit("id");
                    assert("id"@ =~= id_key());
                    lemma_without_key_push(
                        entries_view(entries@).take(at as int),
                        entries@[at as int]@,
                        id_key(),
                    );
                    assert(entries_view(entries@).take(at + 1) =~= entries_view(entries@).take(
                        at as int,
                    ).push(entries@[at as int]@));
                }
                if !same_text(entries[at].key.as_str(), "id") {
                    let ghost before = entries_view(kept@);
                    kept.push(entries[at].clone());
                    assert(entries_view(kept@) =~= before.push(entries@[at as int]@));
                }
                at += 1;
            }
            assert(entries_view(entries@).take(entries.len() as int) =~= entries_view(entries@));
            Document::Mapping(kept)
        },
        _ => value.clone(),
    }
}

/// Tells whether one of `strings` holds `text`.
fn holds_text(strings: &Vec<String>, text: &str) -> (held: bool)
    ensures
        held == texts(strings@).contains(text@),
{
    let mut at: usize = 0;
    while at < strings.len()
        invariant
            at <= strings.len(),
            forall|i: int| 0 <= i < at ==> (#[trigger] strings@[i])@ != text@,
        decreases strings.len() - at,
    {
        if same_text(strings[at].as_str(), text) {
            return true;
        }
        at += 1;
    }
    false
}

/// Resolves `doc` while the objects named in `active` are being resolved.
fn resolve_within(doc: &Document, index: &ObjectIndex, active: &mut Vec<String>) -> (resolved:
    Result<Document, ResolveError>)
    ensures
        final(active)@ == old(active)@,
        resolved_view(resolved) == relative_resolution(doc@, index@, texts(old(active)@)),
    decreases unvisited(index@, texts(old(active)@)), doc, 0nat,
{
    proof {
        index.lemma_finite();
    }
    let ghost around = texts(active@);
    match doc {
        Document::Mapping(entries) => {
            let mut resolved: Vec<Entry> = Vec::new();
            let mut at: usize = 0;
            assert(entries_view(resolved@) =~= Seq::empty());
            while at < entries.len()
                invariant
                    doc is Mapping,
                    doc->Mapping_0 == *entries,
                    at <= entries.len(),
                    active@ == old(active)@,
                    around == texts(old(active)@),
                    index@.dom().finite(),
                    relative_entries(entries_view(entries@), at as nat, index@, around) == Ok::<
                        Seq<(Seq<char>, Json)>,
                        Fault,
                    >(entries_view(resolved@)),
                decreases entries.len() - at,
            {
                assert(entries_view(entries@)[at as int] == entries@[at as int]@);
                match resolve_value(&entries[at].key, &entries[at].value, index, active) {
                    Ok(value) => {
                        put_entry(&mut resolved, entries[at].key.clone(), value);
                    },
                    Err(error) => {
                        proof {
                            lemma_entries_fault(
                                entries_view(entries@),
                                (at + 1) as nat,
                                entries.len() as nat,
                                index@,
                                around,
                            );
                        }
                        return Err(error);
                    },
                }
                at += 1;
            }
            Ok(Document::Mapping(resolved))
        },
        Document::Sequence(items) => {
            let mut resolved: Vec<Document> = Vec::new();
            let mut at: usize = 0;
            assert(docs_view(resolved@) =~= Seq::empty());
            while at < items.len()
                invariant
                    doc is Sequence,
                    doc->Sequence_0 == *items,
                    at <= items.len(),
                    active@ == old(active)@,
                    around == texts(old(active)@),
                    index@.dom().finite(),
                    relative_items(docs_view(items@), at as nat, index@, around) == Ok::<
                        Seq<Json>,
                        Fault,
                    >(docs_view(resolved@)),
                decreases items.len() - at,
            {
                assert(docs_view(items@)[at as int] == items@[at as int]@);
                match resolve_within(&items[at], index, active) {
                    Ok(item) => {
                        let ghost before = docs_view(resolved@);
                        resolved.push(item);
                        assert(docs_view(resolved@) =~= before.push(item@));
                    },
                    Err(error) => {
                        proof {
                            lemma_items_fault(
                                docs_view(items@),
                                (at + 1) as nat,
                                items.len() as nat,
                                index@,
                                around,
                            );
                        }
                        return Err(error);
                    },
                }
                at += 1;
            }
            Ok(Document::Sequence(resolved))
        },
        _ => Ok(doc.clone()),
    }
}

/// Resolves the value that stands under `key`.
fn resolve_value(key: &String, value: &Document, index: &ObjectIndex, active: &mut Vec<String>) -> (resolved:
    Result<Document, ResolveError>)
    ensures
        final(active)@ == old(active)@,
        resolved_view(resolved) == relative_value(key@, value@, index@, texts(old(active)@)),
    decreases unvisited(index@, texts(old(active)@)), value, 1nat,
{
    proof {
        index.lemma_finite();
    }
    match value {
        Document::Mapping(_) => resolve_within(value, index, active),
        Document::Sequence(_) => resolve_within(value, index, active),
        Document::Text(id) => {
            if has_marker(key.as_str(), RELATIVE_MARKER) {
                match index.get(id.as_str()) {
                    None => Err(ResolveError::MissingReference(id.clone())),
                    Some(object) => {
                        if holds_text(active, id.as_str()) {
                            Err(ResolveError::Cycle(id.clone()))
                        } else {
                            let bare = strip_id(object);
                            let ghost around = texts(active@);
                            active.push(id.clone());
                            proof {
                                assert(texts(active@) =~= around.insert(id@)) by {
                                    assert forall|text: Seq<char>|
                                        around.insert(id@).contains(text) implies texts(
                                        active@,
                                    ).contains(text) by {
                                        if text == id@ {
                                            assert(active@[active@.len() - 1]@ == text);
                                        } else {
                                            let i = choose|i: int|
                                                0 <= i < old(active)@.len() && (
                                                #[trigger] old(active)@[i])@ == text;
                                            assert(active@[i]@ == text);
                                        }
                                    }
                                }
                                lemma_unvisited_shrinks(index@, around, id@);
                            }
                            let resolved = resolve_within(&bare, index, active);
                            active.pop();
                            assert(active@ =~= old(active)@);
                            resolved
                        }
                    },
                }
            } else {
                Ok(value.clone())
            }
        },
        _ => Ok(value.clone()),
    }
}

/// The index that a pass over `doc` works with: the one supplied, or else the
/// one built from `doc`.
pub open spec fn index_in_use(doc: Json, index: Option<&ObjectIndex>) -> Map<Seq<char>, Json> {
    match index {
        Some(index) => index@,
        None => index_of(nested_objects(doc)),
    }
}

/// Replaces every relative reference in `doc` by a copy of the object it
/// names, without the object's identifier field and resolved in turn. The
/// index is the one supplied, or else it is built from `doc`; it serves the
/// whole pass and is not changed. An object that refers to itself, directly
/// or through others, is a fault.
pub fn resolve_relative(doc: &Document, index: Option<&ObjectIndex>) -> (resolved: Result<
    Document,
    ResolveError,
>)
    ensures
        resolved_view(resolved) == relative_resolution(
            doc@,
            index_in_use(doc@, index),
            Set::empty(),
        ),
        resolved matches Ok(out) ==> out@.well_formed(),
{
    let mut active: Vec<String> = Vec::new();
    assert(texts(active@) =~= Set::empty());
    match index {
        Some(index) => {
            proof {
                index.lemma_finite();
                lemma_relative_well_formed(doc@, index@, Set::empty());
            }
            resolve_within(doc, index, &mut active)
        },
        None => {
            let index = build_index(doc);
            proof {
                index.lemma_finite();
                lemma_relative_well_formed(doc@, index@, Set::empty());
            }
            resolve_within(doc, &index, &mut active)
        },
    }
}

} // verus!

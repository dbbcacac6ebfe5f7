use crate::document::{
    distinct_keys, docs_view, entries_view, has_key, lemma_with_entry_keys,
    lemma_with_entry_members, put_entry, with_entry, Document, Entry, Json,
};
use crate::error::{Fault, ResolveError};
use crate::text::{
    has_marker, lemma_strip_leading_unmarked, starts_with, strip_leading, strip_marker,
    REMOTE_MARKER,
};
use vstd::prelude::*;

verus! {

/// How far a walk over a document came with what the retrievals have brought
/// so far.
pub enum Walk<T> {
    /// The walk is complete; it took the first `used` of the answers.
    Done { value: T, used: nat },
    /// The walk stands at a remote reference for which there is no answer yet.
    Fetch { uri: Seq<char> },
    /// The walk met a fault.
    Failed { fault: Fault },
}

/// The answers that are left after the first `used` are taken.
pub open spec fn left(fetched: Seq<Result<Json, Fault>>, used: nat) -> Seq<Result<Json, Fault>> {
    if used <= fetched.len() {
        fetched.subrange(used as int, fetched.len() as int)
    } else {
        Seq::empty()
    }
}

/// The walk over `doc`, where `fetched` holds in order the answer to each
/// retrieval that the walk asks for: the document, or the fault in which the
/// retrieval ended.
///
/// A mapping is rebuilt entry by entry and a sequence element by element; a
/// scalar stays. The first fault or missing answer met in that order ends the
/// walk.
pub open spec fn remote_walk(doc: Json, fetched: Seq<Result<Json, Fault>>) -> Walk<Json>
    decreases fetched.len(), doc, 0nat,
{
    match doc {
        Json::Mapping(entries) => match remote_entries(entries, entries.len(), fetched) {
            Walk::Done { value, used } => Walk::Done { value: Json::Mapping(value), used },
            Walk::Fetch { uri } => Walk::Fetch { uri },
            Walk::Failed { fault } => Walk::Failed { fault },
        },
        Json::Sequence(items) => match remote_items(items, items.len(), fetched) {
            Walk::Done { value, used } => Walk::Done { value: Json::Sequence(value), used },
            Walk::Fetch { uri } => Walk::Fetch { uri },
            Walk::Failed { fault } => Walk::Failed { fault },
        },
        _ => Walk::Done { value: doc, used: 0 },
    }
}

/// The walk over the first `count` entries of a mapping. Each resolved value
/// is inserted under the key of its entry with the remote marker taken off.
pub open spec fn remote_entries(
    entries: Seq<(Seq<char>, Json)>,
    count: nat,
    fetched: Seq<Result<Json, Fault>>,
) -> Walk<Seq<(Seq<char>, Json)>>
    decreases fetched.len(), entries, count,
{
    if count == 0 || count > entries.len() {
        Walk::Done { value: Seq::empty(), used: 0 }
    } else {
        match remote_entries(entries, (count - 1) as nat, fetched) {
            Walk::Done { value: resolved, used } => match remote_value(
                entries[count - 1].0,
                entries[count - 1].1,
                left(fetched, used),
            ) {
                Walk::Done { value, used: more } => Walk::Done {
                    value: with_entry(
                        resolved,
                        strip_leading(entries[count - 1].0, REMOTE_MARKER),
                        value,
                    ),
                    used: used + more,
                },
                Walk::Fetch { uri } => Walk::Fetch { uri },
                Walk::Failed { fault } => Walk::Failed { fault },
            },
            Walk::Fetch { uri } => Walk::Fetch { uri },
            Walk::Failed { fault } => Walk::Failed { fault },
        }
    }
}

/// The walk over the first `count` elements of a sequence.
pub open spec fn remote_items(
    items: Seq<Json>,
    count: nat,
    fetched: Seq<Result<Json, Fault>>,
) -> Walk<Seq<Json>>
    decreases fetched.len(), items, count,
{
    if count == 0 || count > items.len() {
        Walk::Done { value: Seq::empty(), used: 0 }
    } else {
        match remote_items(items, (count - 1) as nat, fetched) {
            Walk::Done { value: resolved, used } => match remote_walk(
                items[count - 1],
                left(fetched, used),
            ) {
                Walk::Done { value, used: more } => Walk::Done {
                    value: resolved.push(value),
                    used: used + more,
                },
                Walk::Fetch { uri } => Walk::Fetch { uri },
                Walk::Failed { fault } => Walk::Failed { fault },
            },
            Walk::Fetch { uri } => Walk::Fetch { uri },
            Walk::Failed { fault } => Walk::Failed { fault },
        }
    }
}

/// The walk over what takes the place of `value` under `key`. Under a key
/// with the remote marker the value must be a text, the URI; the first of the
/// answers is that of its retrieval. A fault there is the fault of the walk; a
/// document is walked in turn with the answers that follow. Under any other
/// key the value itself is walked.
pub open spec fn remote_value(
    key: Seq<char>,
    value: Json,
    fetched: Seq<Result<Json, Fault>>,
) -> Walk<Json>
    decreases fetched.len(), value, 1nat,
{
    if starts_with(key, REMOTE_MARKER) {
        match value {
            Json::Text(uri) => if fetched.len() == 0 {
                Walk::Fetch { uri }
            } else {
                match fetched[0] {
                    Ok(document) => match remote_walk(document, fetched.drop_first()) {
                        Walk::Done { value, used } => Walk::Done { value, used: used + 1 },
                        Walk::Fetch { uri } => Walk::Fetch { uri },
                        Walk::Failed { fault } => Walk::Failed { fault },
                    },
                    Err(fault) => Walk::Failed { fault },
                }
            },
            _ => Walk::Failed { fault: Fault::Type { key } },
        }
    } else {
        remote_walk(value, fetched)
    }
}

/// The values of a run of answers, in order.
pub open spec fn answers_view(fetched: Seq<Result<Document, ResolveError>>) -> Seq<
    Result<Json, Fault>,
> {
    Seq::new(
        fetched.len(),
        |i: int|
            match fetched[i] {
                Ok(document) => Ok(document@),
                Err(error) => Err(error@),
            },
    )
}

/// Where remote resolution stands, as a mathematical value.
pub enum RemoteOutcome {
    Resolved(Json),
    Fetch(Seq<char>),
    Failed(Fault),
}

/// Where remote resolution stands.
#[derive(Debug, PartialEq, Eq)]
pub enum RemoteStep {
    /// Every remote reference is resolved; this is the document.
    Resolved(Document),
    /// The document at this URI is needed next.
    Fetch(String),
    /// The pass is over.
    Failed(ResolveError),
}

impl View for RemoteStep {
    type V = RemoteOutcome;

    open spec fn view(&self) -> RemoteOutcome {
        match self {
            RemoteStep::Resolved(doc) => RemoteOutcome::Resolved(doc@),
            RemoteStep::Fetch(uri) => RemoteOutcome::Fetch(uri@),
            RemoteStep::Failed(error) => RemoteOutcome::Failed(error@),
        }
    }
}

/// Where remote resolution of `doc` stands once the retrievals it asked for
/// have been answered by `fetched`, in that order.
pub open spec fn remote_resolution(doc: Json, fetched: Seq<Result<Json, Fault>>) -> RemoteOutcome {
    match remote_walk(doc, fetched) {
        Walk::Done { value, used } => RemoteOutcome::Resolved(value),
        Walk::Fetch { uri } => RemoteOutcome::Fetch(uri),
        Walk::Failed { fault } => RemoteOutcome::Failed(fault),
    }
}

/// A walk takes no more than what was fetched.
pub proof fn lemma_walk_used(doc: Json, fetched: Seq<Result<Json, Fault>>)
    ensures
        remote_walk(doc, fetched) matches Walk::Done { used, .. } ==> used <= fetched.len(),
    decreases fetched.len(), doc, 0nat,
{
    match doc {
        Json::Mapping(entries) => lemma_entries_used(entries, entries.len(), fetched),
        Json::Sequence(items) => lemma_items_used(items, items.len(), fetched),
        _ => {},
    }
}

/// The walk over the first entries takes no more than what was fetched.
proof fn lemma_entries_used(entries: Seq<(Seq<char>, Json)>, count: nat, fetched: Seq<Result<Json, Fault>>)
    ensures
        remote_entries(entries, count, fetched) matches Walk::Done { used, .. } ==> used
            <= fetched.len(),
    decreases fetched.len(), entries, count,
{
    if !(count == 0 || count > entries.len()) {
        lemma_entries_used(entries, (count - 1) as nat, fetched);
        if let Walk::Done { value, used } = remote_entries(entries, (count - 1) as nat, fetched) {
            lemma_value_used(entries[count - 1].0, entries[count - 1].1, left(fetched, used));
        }
    }
}

/// The walk over the first elements takes no more than what was fetched.
proof fn lemma_items_used(items: Seq<Json>, count: nat, fetched: Seq<Result<Json, Fault>>)
    ensures
        remote_items(items, count, fetched) matches Walk::Done { used, .. } ==> used
            <= fetched.len(),
    decreases fetched.len(), items, count,
{
    if !(count == 0 || count > items.len()) {
        lemma_items_used(items, (count - 1) as nat, fetched);
        if let Walk::Done { value, used } = remote_items(items, (count - 1) as nat, fetched) {
            lemma_walk_used(items[count - 1], left(fetched, used));
        }
    }
}

/// The walk over one value takes no more than what was fetched.
proof fn lemma_value_used(key: Seq<char>, value: Json, fetched: Seq<Result<Json, Fault>>)
    ensures
        remote_value(key, value, fetched) matches Walk::Done { used, .. } ==> used
            <= fetched.len(),
    decreases fetched.len(), value, 1nat,
{
    if starts_with(key, REMOTE_MARKER) {
        if value is Text && fetched.len() > 0 {
            if let Ok(document) = fetched[0] {
                lemma_walk_used(document, fetched.drop_first());
            }
        }
    } else {
        lemma_walk_used(value, fetched);
    }
}

/// No key anywhere in `doc` begins with `marker`.
pub open spec fn unmarked(doc: Json, marker: char) -> bool
    decreases doc,
{
    match doc {
        Json::Sequence(items) => forall|i: int|
            0 <= i < items.len() ==> unmarked(#[trigger] items[i], marker),
        Json::Mapping(entries) => forall|i: int|
            0 <= i < entries.len() ==> !starts_with((#[trigger] entries[i]).0, marker) && unmarked(
                entries[i].1,
                marker,
            ),
        _ => true,
    }
}

/// Whether every entry has a key without the remote marker and a value that
/// is well formed and free of the marker.
spec fn clean_entries(entries: Seq<(Seq<char>, Json)>) -> bool {
    forall|i: int|
        0 <= i < entries.len() ==> !starts_with((#[trigger] entries[i]).0, REMOTE_MARKER)
            && unmarked(entries[i].1, REMOTE_MARKER) && entries[i].1.well_formed()
}

/// A document that remote resolution has completed holds no key with the
/// remote marker, at any depth, and no mapping with a key twice: whatever the
/// document and whatever was fetched.
pub proof fn lemma_remote_leaves_no_marker(doc: Json, fetched: Seq<Result<Json, Fault>>)
    ensures
        remote_walk(doc, fetched) matches Walk::Done { value, .. } ==> unmarked(
            value,
            REMOTE_MARKER,
        ) && value.well_formed(),
    decreases fetched.len(), doc, 0nat,
{
    match doc {
        Json::Mapping(entries) => lemma_entries_clean(entries, entries.len(), fetched),
        Json::Sequence(items) => lemma_items_clean(items, items.len(), fetched),
        _ => {},
    }
}

/// The entries that a completed walk has built have distinct keys and are
/// clean.
proof fn lemma_entries_clean(entries: Seq<(Seq<char>, Json)>, count: nat, fetched: Seq<Result<Json, Fault>>)
    ensures
        remote_entries(entries, count, fetched) matches Walk::Done { value, .. } ==> distinct_keys(
            value,
        ) && clean_entries(value),
    decreases fetched.len(), entries, count,
{
    if !(count == 0 || count > entries.len()) {
        lemma_entries_clean(entries, (count - 1) as nat, fetched);
        if let Walk::Done { value: resolved, used } = remote_entries(
            entries,
            (count - 1) as nat,
            fetched,
        ) {
            let key = entries[count - 1].0;
            lemma_value_clean(key, entries[count - 1].1, left(fetched, used));
            if let Walk::Done { value, used: more } = remote_value(
                key,
                entries[count - 1].1,
                left(fetched, used),
            ) {
                let stored = strip_leading(key, REMOTE_MARKER);
                lemma_strip_leading_unmarked(key, REMOTE_MARKER);
                lemma_with_entry_keys(resolved, stored, value);
                lemma_with_entry_members(resolved, stored, value);
            }
        }
    }
}

/// The elements that a completed walk has built are well formed and free of
/// the marker.
proof fn lemma_items_clean(items: Seq<Json>, count: nat, fetched: Seq<Result<Json, Fault>>)
    ensures
        remote_items(items, count, fetched) matches Walk::Done { value, .. } ==> forall|i: int|
            0 <= i < value.len() ==> unmarked(#[trigger] value[i], REMOTE_MARKER)
                && value[i].well_formed(),
    decreases fetched.len(), items, count,
{
    if !(count == 0 || count > items.len()) {
        lemma_items_clean(items, (count - 1) as nat, fetched);
        if let Walk::Done { value: resolved, used } = remote_items(
            items,
            (count - 1) as nat,
            fetched,
        ) {
            lemma_remote_leaves_no_marker(items[count - 1], left(fetched, used));
        }
    }
}

/// The value that a completed walk puts in place of another is well formed
/// and free of the marker.
proof fn lemma_value_clean(key: Seq<char>, value: Json, fetched: Seq<Result<Json, Fault>>)
    ensures
        remote_value(key, value, fetched) matches Walk::Done { value: resolved, .. } ==> unmarked(
            resolved,
            REMOTE_MARKER,
        ) && resolved.well_formed(),
    decreases fetched.len(), value, 1nat,
{
    if starts_with(key, REMOTE_MARKER) {
        if value is Text && fetched.len() > 0 {
            if let Ok(document) = fetched[0] {
                lemma_remote_leaves_no_marker(document, fetched.drop_first());
            }
        }
    } else {
        lemma_remote_leaves_no_marker(value, fetched);
    }
}

/// A mapping whose one entry is a remote reference asks for the URI while
/// there is no answer. A fault of the retrieval is the fault of the pass.
/// Once the document is fetched, the mapping resolves to the one entry that
/// holds, under the key without its marker, the fetched document resolved in
/// turn.
pub proof fn lemma_remote_single_reference(
    key: Seq<char>,
    uri: Seq<char>,
    fetched: Seq<Result<Json, Fault>>,
)
    requires
        starts_with(key, REMOTE_MARKER),
    ensures
        remote_resolution(Json::Mapping(seq![(key, Json::Text(uri))]), fetched) == if fetched.len()
            == 0 {
            RemoteOutcome::Fetch(uri)
        } else {
            match fetched[0] {
                Ok(document) => match remote_resolution(document, fetched.drop_first()) {
                    RemoteOutcome::Resolved(resolved) => RemoteOutcome::Resolved(
                        Json::Mapping(seq![(strip_leading(key, REMOTE_MARKER), resolved)]),
                    ),
                    RemoteOutcome::Fetch(next) => RemoteOutcome::Fetch(next),
                    RemoteOutcome::Failed(fault) => RemoteOutcome::Failed(fault),
                },
                Err(fault) => RemoteOutcome::Failed(fault),
            }
        },
{
    let entries = seq![(key, Json::Text(uri))];
    let none = Seq::<(Seq<char>, Json)>::empty();
    let stored = strip_leading(key, REMOTE_MARKER);
    assert(entries.len() == 1);
    assert(entries[0] == (key, Json::Text(uri)));
    assert(remote_entries(entries, 0, fetched) == (Walk::Done { value: none, used: 0 }));
    assert(left(fetched, 0) =~= fetched);
    let inner = remote_value(key, Json::Text(uri), fetched);
    assert(remote_entries(entries, 1, fetched) == match inner {
        Walk::Done { value, used } => Walk::Done { value: with_entry(none, stored, value), used },
        Walk::Fetch { uri } => Walk::Fetch { uri },
        Walk::Failed { fault } => Walk::Failed { fault },
    });
    assert forall|value: Json| with_entry(none, stored, value) == seq![(stored, value)] by {
        assert(!has_key(none, stored));
        assert(with_entry(none, stored, value) =~= seq![(stored, value)]);
    }
}

/// A walk that stopped among the first entries stopped for the whole mapping.
proof fn lemma_entries_stop(
    entries: Seq<(Seq<char>, Json)>,
    count: nat,
    upto: nat,
    fetched: Seq<Result<Json, Fault>>,
)
    requires
        count <= upto <= entries.len(),
        !(remote_entries(entries, count, fetched) is Done),
    ensures
        remote_entries(entries, upto, fetched) == remote_entries(entries, count, fetched),
    decreases upto - count,
{
    if count < upto {
        lemma_entries_stop(entries, count, (upto - 1) as nat, fetched);
    }
}

/// A walk that stopped among the first elements stopped for the whole
/// sequence.
proof fn lemma_items_stop(items: Seq<Json>, count: nat, upto: nat, fetched: Seq<Result<Json, Fault>>)
    requires
        count <= upto <= items.len(),
        !(remote_items(items, count, fetched) is Done),
    ensures
        remote_items(items, upto, fetched) == remote_items(items, count, fetched),
    decreases upto - count,
{
    if count < upto {
        lemma_items_stop(items, count, (upto - 1) as nat, fetched);
    }
}

/// How far a walk came: the resolved document with the number of answers
/// behind it, or why it stopped.
enum Progress {
    Done(Document, usize),
    Fetch(String),
    Failed(ResolveError),
}

impl Progress {
    /// The walk that this progress records, for a walk that began with the
    /// answer number `from`.
    spec fn as_walk(self, from: usize) -> Walk<Json> {
        match self {
            Progress::Done(doc, next) => Walk::Done { value: doc@, used: (next - from) as nat },
            Progress::Fetch(uri) => Walk::Fetch { uri: uri@ },
            Progress::Failed(error) => Walk::Failed { fault: error@ },
        }
    }

    /// Whether a completed walk ended between `from` and `len`.
    spec fn within(self, from: usize, len: usize) -> bool {
        self matches Progress::Done(_, next) ==> from <= next <= len
    }
}

/// The answers from number `from` on.
spec fn from_on(fetched: Seq<Result<Document, ResolveError>>, from: usize) -> Seq<
    Result<Json, Fault>,
> {
    answers_view(fetched).subrange(from as int, fetched.len() as int)
}

/// Walks `doc` with the answers from number `from` on.
fn walk(doc: &Document, fetched: &Vec<Result<Document, ResolveError>>, from: usize) -> (progress: Progress)
    requires
        from <= fetched.len(),
    ensures
        progress.within(from, fetched.len()),
        progress.as_walk(from) == remote_walk(doc@, from_on(fetched@, from)),
    decreases fetched.len() - from, doc, 0nat,
{
    let ghost rest = from_on(fetched@, from);
    match doc {
        Document::Mapping(entries) => {
            let mut resolved: Vec<Entry> = Vec::new();
            let mut next: usize = from;
            let mut at: usize = 0;
            assert(entries_view(resolved@) =~= Seq::empty());
            while at < entries.len()
                invariant
                    doc is Mapping,
                    doc->Mapping_0 == *entries,
                    at <= entries.len(),
                    from <= next <= fetched.len(),
                    rest == from_on(fetched@, from),
                    remote_entries(entries_view(entries@), at as nat, rest) == (Walk::Done {
                        value: entries_view(resolved@),
                        used: (next - from) as nat,
                    }),
                decreases entries.len() - at,
            {
                proof {
                    assert(entries_view(entries@)[at as int] == entries@[at as int]@);
                    assert(left(rest, (next - from) as nat) =~= from_on(fetched@, next));
                }
                match walk_value(&entries[at].key, &entries[at].value, fetched, next) {
                    Progress::Done(value, after) => {
                        put_entry(
                            &mut resolved,
                            strip_marker(entries[at].key.as_str(), REMOTE_MARKER),
                            value,
                        );
                        next = after;
                    },
                    Progress::Fetch(uri) => {
                        proof {
                            lemma_entries_stop(
                                entries_view(entries@),
                                (at + 1) as nat,
                                entries.len() as nat,
                                rest,
                            );
                        }
                        return Progress::Fetch(uri);
                    },
                    Progress::Failed(error) => {
                        proof {
                            lemma_entries_stop(
                                entries_view(entries@),
                                (at + 1) as nat,
                                entries.len() as nat,
                                rest,
                            );
                        }
                        return Progress::Failed(error);
                    },
                }
                at += 1;
            }
            Progress::Done(Document::Mapping(resolved), next)
        },
        Document::Sequence(items) => {
            let mut resolved: Vec<Document> = Vec::new();
            let mut next: usize = from;
            let mut at: usize = 0;
            assert(docs_view(resolved@) =~= Seq::empty());
            while at < items.len()
                invariant
                    doc is Sequence,
                    doc->Sequence_0 == *items,
                    at <= items.len(),
                    from <= next <= fetched.len(),
                    rest == from_on(fetched@, from),
                    remote_items(docs_view(items@), at as nat, rest) == (Walk::Done {
                        value: docs_view(resolved@),
                        used: (next - from) as nat,
                    }),
                decreases items.len() - at,
            {
                proof {
                    assert(docs_view(items@)[at as int] == items@[at as int]@);
                    assert(left(rest, (next - from) as nat) =~= from_on(fetched@, next));
                }
                match walk(&items[at], fetched, next) {
                    Progress::Done(value, after) => {
                        let ghost before = docs_view(resolved@);
                        resolved.push(value);
                        assert(docs_view(resolved@) =~= before.push(value@));
                        next = after;
                    },
                    Progress::Fetch(uri) => {
                        proof {
                            lemma_items_stop(
                                docs_view(items@),
                                (at + 1) as nat,
                                items.len() as nat,
                                rest,
                            );
                        }
                        return Progress::Fetch(uri);
                    },
                    Progress::Failed(error) => {
                        proof {
                            lemma_items_stop(
                                docs_view(items@),
                                (at + 1) as nat,
                                items.len() as nat,
                                rest,
                            );
                        }
                        return Progress::Failed(error);
                    },
                }
                at += 1;
            }
            Progress::Done(Document::Sequence(resolved), next)
        },
        _ => Progress::Done(doc.clone(), from),
    }
}

/// Walks what takes the place of `value` under `key`, with the answers from
/// number `from` on.
fn walk_value(key: &String, value: &Document, fetched: &Vec<Result<Document, ResolveError>>, from: usize) -> (progress:
    Progress)
    requires
        from <= fetched.len(),
    ensures
        progress.within(from, fetched.len()),
        progress.as_walk(from) == remote_value(key@, value@, from_on(fetched@, from)),
    decreases fetched.len() - from, value, 1nat,
{
    if has_marker(key.as_str(), REMOTE_MARKER) {
        match value {
            Document::Text(uri) => {
                if from == fetched.len() {
                    Progress::Fetch(uri.clone())
                } else {
                    proof {
                        let rest = from_on(fetched@, from);
                        assert(rest[0] == answers_view(fetched@)[from as int]);
                        assert(rest.drop_first() =~= from_on(fetched@, (from + 1) as usize));
                    }
                    match &fetched[from] {
                        Ok(document) => walk(document, fetched, from + 1),
                        Err(error) => Progress::Failed(error.clone()),
                    }
                }
            },
            _ => Progress::Failed(ResolveError::Type(key.clone())),
        }
    } else {
        walk(value, fetched, from)
    }
}

/// Resolves the remote references of `doc` as far as `fetched` reaches.
///
/// `fetched` holds, in order, the answers to the retrievals asked for so far:
/// each the document that came, or the fault in which the retrieval ended.
/// The result is the resolved document, or the URI to retrieve next, or the
/// fault that ends the pass. A caller starts with no answers, retrieves what
/// is asked for, appends the answer and asks again. Every call walks `doc`
/// from its start, in the same order, so the answers line up.
pub fn resolve_remote(doc: &Document, fetched: &Vec<Result<Document, ResolveError>>) -> (step: RemoteStep)
    ensures
        step@ == remote_resolution(doc@, answers_view(fetched@)),
        step matches RemoteStep::Resolved(resolved) ==> unmarked(resolved@, REMOTE_MARKER)
            && resolved@.well_formed(),
{
    assert(from_on(fetched@, 0) =~= answers_view(fetched@));
    proof {
        lemma_remote_leaves_no_marker(doc@, answers_view(fetched@));
    }
    match walk(doc, fetched, 0) {
        Progress::Done(resolved, _) => RemoteStep::Resolved(resolved),
        Progress::Fetch(uri) => RemoteStep::Fetch(uri),
        Progress::Failed(error) => RemoteStep::Failed(error),
    }
}

} // verus!

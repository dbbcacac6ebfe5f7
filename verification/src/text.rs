use vstd::prelude::*;
use vstd::string::StrSliceExecFns;
use vstd::string::StringSliceAdditionalSpecFns;

verus! {

/// Prefix of a key whose value is a URI to fetch.
pub const REMOTE_MARKER: char = '@';

/// Prefix of a key whose value names another object of the same document.
pub const RELATIVE_MARKER: char = '>';

/// Name of the field that makes a mapping an indexable object.
pub open spec fn id_key() -> Seq<char> {
    seq!['i', 'd']
}

/// Whether `text` begins with the character `marker`.
pub open spec fn starts_with(text: Seq<char>, marker: char) -> bool {
    text.len() > 0 && text[0] == marker
}

/// `text` without its leading run of `marker` characters.
pub open spec fn strip_leading(text: Seq<char>, marker: char) -> Seq<char>
    decreases text.len(),
{
    if starts_with(text, marker) {
        strip_leading(text.drop_first(), marker)
    } else {
        text
    }
}

/// Stripping removes the marker for good: what is left never starts with it.
pub proof fn lemma_strip_leading_unmarked(text: Seq<char>, marker: char)
    ensures
        !starts_with(strip_leading(text, marker), marker),
    decreases text.len(),
{
    if starts_with(text, marker) {
        lemma_strip_leading_unmarked(text.drop_first(), marker);
    }
}

/// Dropping the first `count` characters, all of them `marker`, does not
/// change what stripping leaves.
proof fn lemma_strip_leading_skip(text: Seq<char>, marker: char, count: int)
    requires
        0 <= count <= text.len(),
        forall|i: int| 0 <= i < count ==> text[i] == marker,
    ensures
        strip_leading(text, marker) == strip_leading(text.skip(count), marker),
    decreases count,
{
    if count == 0 {
        assert(text.skip(0) =~= text);
    } else {
        let rest = text.drop_first();
        assert forall|i: int| 0 <= i < count - 1 implies rest[i] == marker by {
            assert(rest[i] == text[i + 1]);
        }
        lemma_strip_leading_skip(rest, marker, count - 1);
        assert(rest.skip(count - 1) =~= text.skip(count));
    }
}

/// Tells whether two texts hold the same characters.
pub fn same_text(left: &str, right: &str) -> (same: bool)
    ensures
        same == (left@ == right@),
{
    let a = left.as_bytes();
    let b = right.as_bytes();
    proof {
        vstd::utf8::encode_utf8_decode_utf8(left@);
        vstd::utf8::encode_utf8_decode_utf8(right@);
    }
    if a.len() != b.len() {
        return false;
    }
    let mut at: usize = 0;
    while at < a.len()
        invariant
            at <= a.len(),
            a.len() == b.len(),
            a@ == left.spec_bytes(),
            b@ == right.spec_bytes(),
            forall|i: int| 0 <= i < at ==> a@[i] == b@[i],
        decreases a.len() - at,
    {
        if a[at] != b[at] {
            return false;
        }
        at += 1;
    }
    assert(a@ =~= b@);
    true
}

/// Tells whether `key` begins with `marker`.
pub fn has_marker(key: &str, marker: char) -> (marked: bool)
    ensures
        marked == starts_with(key@, marker),
{
    !key.is_empty() && key.get_char(0) == marker
}

/// Returns `key` without its leading run of `marker` characters.
pub fn strip_marker(key: &str, marker: char) -> (stripped: String)
    ensures
        stripped@ == strip_leading(key@, marker),
{
    let len: usize = key.unicode_len();
    let mut start: usize = 0;
    while start < len && key.get_char(start) == marker
        invariant
            start <= len,
            len == key@.len(),
            forall|i: int| 0 <= i < start ==> key@[i] == marker,
        decreases len - start,
    {
        start += 1;
    }
    proof {
        lemma_strip_leading_skip(key@, marker, start as int);
        assert(key@.subrange(start as int, len as int) =~= key@.skip(start as int));
    }
    key.substring_char(start, len).to_owned()
}

} // verus!

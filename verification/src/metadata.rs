use crate::text::{same_text, starts_with};
use vstd::prelude::*;
use vstd::std_specs::iter::IteratorSpec;
use vstd::string::StrSliceExecFns;
use vstd::string::StringExecFns;

verus! {

/// One `key = value` line, as a mathematical value.
pub struct DescriptorView {
    pub relative: bool,
    pub key: Seq<char>,
    pub value: Seq<char>,
}

/// The metadata of a file, as a mathematical value.
pub struct MetadataView {
    pub type_string: Seq<char>,
    pub file_path: Option<Seq<char>>,
    pub other_keys: Seq<DescriptorView>,
}

/// One `key = value` line. A key written with a leading `@` is relative; the
/// `@` is not part of `key`.
#[derive(Debug, PartialEq)]
pub struct Descriptor {
    pub relative: bool,
    pub key: String,
    pub value: String,
}

/// The metadata of a file: its type, its path where one is given, and every
/// other line in the order in which it was written.
#[derive(Debug, PartialEq)]
pub struct Metadata {
    pub type_string: String,
    pub file_path: Option<String>,
    pub other_keys: Vec<Descriptor>,
}

/// Why a text is no metadata.
#[derive(Debug, Clone)]
pub enum InvalidMetadataError {
    MissingTypeAnnotation,
    InvalidFileAnnotation(String),
    InvalidKey(String),
}

impl View for Descriptor {
    type V = DescriptorView;

    open spec fn view(&self) -> DescriptorView {
        DescriptorView { relative: self.relative, key: self.key@, value: self.value@ }
    }
}

/// The values of a run of descriptors, in order.
pub open spec fn descriptors_view(descriptors: Seq<Descriptor>) -> Seq<DescriptorView> {
    Seq::new(descriptors.len(), |i: int| descriptors[i]@)
}

impl View for Metadata {
    type V = MetadataView;

    open spec fn view(&self) -> MetadataView {
        MetadataView {
            type_string: self.type_string@,
            file_path: match self.file_path {
                Some(path) => Some(path@),
                None => None,
            },
            other_keys: descriptors_view(self.other_keys@),
        }
    }
}

/// Whether `c` has the Unicode property White_Space, as `char::is_whitespace`
/// tells it.
pub uninterp spec fn is_white_space(c: char) -> bool;

/// `char::is_whitespace`.
#[verifier::external_body]
fn white_space(c: char) -> (white: bool)
    ensures
        white == is_white_space(c),
{
    c.is_whitespace()
}

/// Position of the first `c` in `text`, or the length of `text` where it
/// holds none.
pub open spec fn first_index(text: Seq<char>, c: char) -> nat
    decreases text.len(),
{
    if text.len() == 0 || text[0] == c {
        0
    } else {
        1 + first_index(text.drop_first(), c)
    }
}

/// The pieces of `text` between occurrences of `separator`. A text without
/// the separator is one piece.
pub open spec fn split(text: Seq<char>, separator: char) -> Seq<Seq<char>>
    decreases text.len(),
{
    let at = first_index(text, separator) as int;
    if at >= text.len() {
        seq![text]
    } else {
        seq![text.subrange(0, at)] + split(text.subrange(at + 1, text.len() as int), separator)
    }
}

/// `text` without its leading white space.
pub open spec fn trim_start(text: Seq<char>) -> Seq<char>
    decreases text.len(),
{
    if text.len() > 0 && is_white_space(text[0]) {
        trim_start(text.drop_first())
    } else {
        text
    }
}

/// `text` without its trailing white space.
pub open spec fn trim_end(text: Seq<char>) -> Seq<char>
    decreases text.len(),
{
    if text.len() > 0 && is_white_space(text.last()) {
        trim_end(text.drop_last())
    } else {
        text
    }
}

/// `text` without leading and trailing white space.
pub open spec fn trimmed(text: Seq<char>) -> Seq<char> {
    trim_end(trim_start(text))
}

/// Whether `line` holds a `=`.
pub open spec fn has_separator(line: Seq<char>) -> bool {
    first_index(line, '=') < line.len()
}

/// Whether every line of `text` holds a `=`.
pub open spec fn well_separated(text: Seq<char>) -> bool {
    forall|i: int| 0 <= i < split(text, '\n').len() ==> has_separator(#[trigger] split(text, '\n')[i])
}

/// What a line says: the key is what stands before the first `=`, the value
/// what stands between the first `=` and the second, both without the white
/// space around them. One leading `@` marks the key as relative and is taken
/// off it.
pub open spec fn descriptor_of(line: Seq<char>) -> DescriptorView {
    let fields = split(line, '=');
    let name = trimmed(fields[0]);
    DescriptorView {
        relative: starts_with(name, '@'),
        key: if starts_with(name, '@') {
            name.drop_first()
        } else {
            name
        },
        value: trimmed(fields[1]),
    }
}

/// What the lines of `text` say, in order.
pub open spec fn descriptors_of(text: Seq<char>) -> Seq<DescriptorView> {
    split(text, '\n').map_values(|line: Seq<char>| descriptor_of(line))
}

/// The value of the first descriptor that carries `key`.
pub open spec fn first_value(descriptors: Seq<DescriptorView>, key: Seq<char>) -> Option<Seq<char>>
    decreases descriptors.len(),
{
    if descriptors.len() == 0 {
        None
    } else {
        match first_value(descriptors.drop_last(), key) {
            Some(value) => Some(value),
            None => if descriptors.last().key == key {
                Some(descriptors.last().value)
            } else {
                None
            },
        }
    }
}

/// Whether a descriptor is neither the type nor the file.
pub open spec fn is_other(descriptor: DescriptorView) -> bool {
    descriptor.key != "type"@ && descriptor.key != "file"@
}

/// The metadata that `text` describes: the type is the value of the first
/// `type` line and the path that of the first `file` line; every line with
/// another key is kept. Without a `type` line there is none.
pub open spec fn metadata_of(text: Seq<char>) -> Option<MetadataView> {
    let descriptors = descriptors_of(text);
    match first_value(descriptors, "type"@) {
        Some(type_string) => Some(
            MetadataView {
                type_string,
                file_path: first_value(descriptors, "file"@),
                other_keys: descriptors.filter(|d: DescriptorView| is_other(d)),
            },
        ),
        None => None,
    }
}

/// `at` is the first index of `c` once nothing before it is `c` and it is
/// either the end or a `c`.
proof fn lemma_first_index(text: Seq<char>, c: char, at: int)
    requires
        0 <= at <= text.len(),
        forall|i: int| 0 <= i < at ==> text[i] != c,
        at == text.len() || text[at] == c,
    ensures
        first_index(text, c) == at,
    decreases text.len(),
{
    if at > 0 {
        let rest = text.drop_first();
        assert forall|i: int| 0 <= i < at - 1 implies rest[i] != c by {
            assert(rest[i] == text[i + 1]);
        }
        lemma_first_index(rest, c, at - 1);
    }
}

/// The first two fields of a line that holds the separator at `first`, and
/// next at `second` or not again.
proof fn lemma_fields(line: Seq<char>, separator: char, first: int, second: int)
    requires
        0 <= first < second <= line.len(),
        first_index(line, separator) == first,
        first_index(line.subrange(first + 1, line.len() as int), separator) == second - first - 1,
    ensures
        split(line, separator).len() >= 2,
        split(line, separator)[0] == line.subrange(0, first),
        split(line, separator)[1] == line.subrange(first + 1, second),
{
    let rest = line.subrange(first + 1, line.len() as int);
    let tail = split(rest, separator);
    assert(split(line, separator) == seq![line.subrange(0, first)] + tail);
    if second == line.len() {
        assert(tail == seq![rest]);
        assert(rest =~= line.subrange(first + 1, second));
    } else {
        assert(tail[0] == rest.subrange(0, second - first - 1));
        assert(rest.subrange(0, second - first - 1) =~= line.subrange(first + 1, second));
    }
}

/// Trimming at the start drops exactly the leading run of white space.
proof fn lemma_trim_start(text: Seq<char>, count: int)
    requires
        0 <= count <= text.len(),
        forall|i: int| 0 <= i < count ==> is_white_space(text[i]),
        count == text.len() || !is_white_space(text[count]),
    ensures
        trim_start(text) == text.subrange(count, text.len() as int),
    decreases count,
{
    if count == 0 {
        assert(text.subrange(0, text.len() as int) =~= text);
    } else {
        let rest = text.drop_first();
        assert forall|i: int| 0 <= i < count - 1 implies is_white_space(rest[i]) by {
            assert(rest[i] == text[i + 1]);
        }
        lemma_trim_start(rest, count - 1);
        assert(rest.subrange(count - 1, rest.len() as int) =~= text.subrange(
            count,
            text.len() as int,
        ));
    }
}

/// Trimming at the end drops exactly the trailing run of white space.
proof fn lemma_trim_end(text: Seq<char>, keep: int)
    requires
        0 <= keep <= text.len(),
        forall|i: int| keep <= i < text.len() ==> is_white_space(text[i]),
        keep == 0 || !is_white_space(text[keep - 1]),
    ensures
        trim_end(text) == text.subrange(0, keep),
    decreases text.len() - keep,
{
    if keep == text.len() {
        assert(text.subrange(0, keep) =~= text);
    } else {
        let rest = text.drop_last();
        lemma_trim_end(rest, keep);
        assert(rest.subrange(0, keep) =~= text.subrange(0, keep));
    }
}

/// What `first_value` finds after one more descriptor.
proof fn lemma_first_value_push(
    descriptors: Seq<DescriptorView>,
    next: DescriptorView,
    key: Seq<char>,
)
    ensures
        first_value(descriptors.push(next), key) == match first_value(descriptors, key) {
            Some(value) => Some(value),
            None => if next.key == key {
                Some(next.value)
            } else {
                None
            },
        },
{
    assert(descriptors.push(next).drop_last() =~= descriptors);
}

/// What the filter keeps after one more descriptor.
proof fn lemma_others_push(descriptors: Seq<DescriptorView>, next: DescriptorView)
    ensures
        descriptors.push(next).filter(|d: DescriptorView| is_other(d)) == if is_other(next) {
            descriptors.filter(|d: DescriptorView| is_other(d)).push(next)
        } else {
            descriptors.filter(|d: DescriptorView| is_other(d))
        },
{
    reveal(Seq::filter);
    assert(descriptors.push(next).drop_last() =~= descriptors);
}

/// The characters of `text`, one by one.
fn chars_of(text: &str) -> (chars: Vec<char>)
    ensures
        chars@ == text@,
{
    let mut chars: Vec<char> = Vec::new();
    let mut rest = text.chars();
    loop
        invariant
            chars@ + rest.remaining() == text@,
            rest.decrease() is Some,
        decreases rest.decrease()->0,
    {
        let ghost before = rest;
        match rest.next() {
            Some(c) => {
                assert(chars@.push(c) + before.remaining().drop_first() =~= chars@
                    + before.remaining());
                chars.push(c);
            },
            None => {
                assert(chars@ + before.remaining() =~= chars@);
                return chars;
            },
        }
    }
}

/// Finds the first `c` in `chars[from..to]`; `to` where there is none.
fn find_char(chars: &Vec<char>, from: usize, to: usize, c: char) -> (at: usize)
    requires
        from <= to <= chars.len(),
    ensures
        from <= at <= to,
        at - from == first_index(chars@.subrange(from as int, to as int), c),
{
    let mut at: usize = from;
    while at < to && chars[at] != c
        invariant
            from <= at <= to <= chars.len(),
            forall|i: int| from <= i < at ==> chars@[i] != c,
        decreases to - at,
    {
        at += 1;
    }
    proof {
        lemma_first_index(chars@.subrange(from as int, to as int), c, at - from);
    }
    at
}

/// Finds what is left of `chars[from..to]` without the white space around it.
fn trim_range(chars: &Vec<char>, from: usize, to: usize) -> (range: (usize, usize))
    requires
        from <= to <= chars.len(),
    ensures
        from <= range.0 <= range.1 <= to,
        chars@.subrange(range.0 as int, range.1 as int) == trimmed(
            chars@.subrange(from as int, to as int),
        ),
{
    let mut start: usize = from;
    while start < to && white_space(chars[start])
        invariant
            from <= start <= to <= chars.len(),
            forall|i: int| from <= i < start ==> is_white_space(chars@[i]),
        decreases to - start,
    {
        start += 1;
    }
    let mut end: usize = to;
    while end > start && white_space(chars[end - 1])
        invariant
            start <= end <= to <= chars.len(),
            forall|i: int| end <= i < to ==> is_white_space(chars@[i]),
        decreases end - start,
    {
        end -= 1;
    }
    proof {
        let whole = chars@.subrange(from as int, to as int);
        let tail = chars@.subrange(start as int, to as int);
        lemma_trim_start(whole, start - from);
        assert(whole.subrange(start - from, whole.len() as int) =~= tail);
        lemma_trim_end(tail, end - start);
        assert(tail.subrange(0, end - start) =~= chars@.subrange(start as int, end as int));
    }
    (start, end)
}

/// Reads the line `chars[from..to]` of `text`.
fn parse_line(text: &str, chars: &Vec<char>, from: usize, to: usize) -> (descriptor: Descriptor)
    requires
        chars@ == text@,
        from <= to <= chars.len(),
        has_separator(chars@.subrange(from as int, to as int)),
    ensures
        descriptor@ == descriptor_of(chars@.subrange(from as int, to as int)),
{
    let ghost line = chars@.subrange(from as int, to as int);
    let first = find_char(chars, from, to, '=');
    let second = find_char(chars, first + 1, to, '=');
    proof {
        assert(line.subrange(first - from + 1, line.len() as int) =~= chars@.subrange(
            first + 1,
            to as int,
        ));
        lemma_fields(line, '=', first - from, second - from);
        assert(line.subrange(0, first - from) =~= chars@.subrange(from as int, first as int));
        assert(line.subrange(first - from + 1, second - from) =~= chars@.subrange(
            first + 1,
            second as int,
        ));
    }
    let (name_start, name_end) = trim_range(chars, from, first);
    let (value_start, value_end) = trim_range(chars, first + 1, second);
    let relative = name_start < name_end && chars[name_start] == '@';
    let key_start: usize = if relative {
        name_start + 1
    } else {
        name_start
    };
    proof {
        let name = chars@.subrange(name_start as int, name_end as int);
        assert(relative == starts_with(name, '@'));
        if relative {
            assert(name.drop_first() =~= chars@.subrange(key_start as int, name_end as int));
        }
    }
    Descriptor {
        relative,
        key: text.substring_char(key_start, name_end).to_owned(),
        value: text.substring_char(value_start, value_end).to_owned(),
    }
}

/// Tells whether every line of `meta` holds a `=`, which is what
/// `parse_metadata` asks of its input.
pub fn is_well_separated(meta: &str) -> (well: bool)
    ensures
        well == well_separated(meta@),
{
    let chars = chars_of(meta);
    let mut from: usize = 0;
    let ghost mut done: Seq<Seq<char>> = Seq::empty();
    proof {
        assert(meta@.subrange(0, meta@.len() as int) =~= meta@);
        assert(done + split(meta@, '\n') =~= split(meta@, '\n'));
    }
    loop
        invariant
            chars@ == meta@,
            from <= chars.len(),
            split(meta@, '\n') == done + split(meta@.subrange(from as int, meta@.len() as int), '\n'),
            forall|i: int| 0 <= i < done.len() ==> has_separator(#[trigger] done[i]),
        decreases chars.len() - from,
    {
        let end = find_char(&chars, from, chars.len(), '\n');
        let mark = find_char(&chars, from, end, '=');
        let ghost rest = meta@.subrange(from as int, meta@.len() as int);
        let ghost line = meta@.subrange(from as int, end as int);
        proof {
            assert(rest.subrange(0, end - from) =~= line);
            assert(split(rest, '\n')[0] == line);
            assert(split(meta@, '\n')[done.len() as int] == line);
        }
        if mark == end {
            return false;
        }
        if end == chars.len() {
            proof {
                assert(split(meta@, '\n') =~= done.push(line));
                assert forall|i: int| 0 <= i < split(meta@, '\n').len() implies has_separator(
                    #[trigger] split(meta@, '\n')[i],
                ) by {
                    if i < done.len() {
                        assert(split(meta@, '\n')[i] == done[i]);
                    }
                }
            }
            return true;
        }
        proof {
            assert(rest.subrange(end - from + 1, rest.len() as int) =~= meta@.subrange(
                end + 1,
                meta@.len() as int,
            ));
            assert(done + split(rest, '\n') =~= done.push(line) + split(
                meta@.subrange(end + 1, meta@.len() as int),
                '\n',
            ));
            done = done.push(line);
        }
        from = end + 1;
    }
}

/// Reads the metadata that `meta` describes, line by line.
pub fn parse_metadata(meta: String) -> (parsed: Result<Metadata, InvalidMetadataError>)
    requires
        well_separated(meta@),
    ensures
        match parsed {
            Ok(metadata) => metadata_of(meta@) == Some(metadata@),
            Err(error) => metadata_of(meta@) is None && error is MissingTypeAnnotation,
        },
{
    let text = meta.as_str();
    let chars = chars_of(text);
    let mut type_string: Option<String> = None;
    let mut file_path: Option<String> = None;
    let mut other_keys: Vec<Descriptor> = Vec::new();
    let mut from: usize = 0;
    let mut more = true;
    let ghost mut done: Seq<Seq<char>> = Seq::empty();
    let ghost read = |line: Seq<char>| descriptor_of(line);
    proof {
        assert(meta@.subrange(0, meta@.len() as int) =~= meta@);
        assert(done + split(meta@, '\n') =~= split(meta@, '\n'));
        assert(descriptors_view(other_keys@) =~= done.map_values(read).filter(
            |d: DescriptorView| is_other(d),
        )) by {
            reveal(Seq::filter);
        }
    }
    while more
        invariant
            chars@ == meta@,
            text@ == meta@,
            well_separated(meta@),
            from <= chars.len(),
            read == |line: Seq<char>| descriptor_of(line),
            more ==> split(meta@, '\n') == done + split(
                meta@.subrange(from as int, meta@.len() as int),
                '\n',
            ),
            !more ==> split(meta@, '\n') == done,
            match type_string {
                Some(value) => first_value(done.map_values(read), "type"@) == Some(value@),
                None => first_value(done.map_values(read), "type"@) is None,
            },
            match file_path {
                Some(value) => first_value(done.map_values(read), "file"@) == Some(value@),
                None => first_value(done.map_values(read), "file"@) is None,
            },
            descriptors_view(other_keys@) == done.map_values(read).filter(
                |d: DescriptorView| is_other(d),
            ),
        decreases chars.len() - from + (if more { 1nat } else { 0nat }),
    {
        let end = find_char(&chars, from, chars.len(), '\n');
        let ghost rest = meta@.subrange(from as int, meta@.len() as int);
        let ghost line = meta@.subrange(from as int, end as int);
        proof {
            assert(rest.subrange(0, end - from) =~= line);
            assert(split(rest, '\n')[0] == line);
            assert(split(meta@, '\n')[done.len() as int] == line);
            assert("type"@ != "file"@) by {
                reveal_strlit("type");
                reveal_strlit("file");
                assert("type"@[0] == 't' && "file"@[0] == 'f');
            }
            lemma_first_value_push(done.map_values(read), descriptor_of(line), "type"@);
            lemma_first_value_push(done.map_values(read), descriptor_of(line), "file"@);
            lemma_others_push(done.map_values(read), descriptor_of(line));
            assert(done.push(line).map_values(read) =~= done.map_values(read).push(
                descriptor_of(line),
            ));
            if end == chars.len() {
                assert(split(meta@, '\n') =~= done.push(line));
            } else {
                assert(rest.subrange(end - from + 1, rest.len() as int) =~= meta@.subrange(
                    end + 1,
                    meta@.len() as int,
                ));
                assert(done + split(rest, '\n') =~= done.push(line) + split(
                    meta@.subrange(end + 1, meta@.len() as int),
                    '\n',
                ));
            }
        }
        let descriptor = parse_line(text, &chars, from, end);
        if same_text(descriptor.key.as_str(), "type") {
            if type_string.is_none() {
                type_string = Some(descriptor.value);
            }
        } else if same_text(descriptor.key.as_str(), "file") {
            if file_path.is_none() {
                file_path = Some(descriptor.value);
            }
        } else {
            let ghost before = descriptors_view(other_keys@);
            other_keys.push(descriptor);
            assert(descriptors_view(other_keys@) =~= before.push(descriptor@));
        }
        proof {
            done = done.push(line);
        }
        if end == chars.len() {
            more = false;
        } else {
            from = end + 1;
        }
    }
    assert(done.map_values(read) == descriptors_of(meta@));
    match type_string {
        Some(type_string) => Ok(Metadata { type_string, file_path, other_keys }),
        None => Err(InvalidMetadataError::MissingTypeAnnotation),
    }
}

impl InvalidMetadataError {
    /// What the error says to a reader. An invalid key has no wording.
    pub open spec fn message_text(self) -> Option<Seq<char>> {
        match self {
            InvalidMetadataError::MissingTypeAnnotation => Some("Missing Type annotation."@),
            InvalidMetadataError::InvalidFileAnnotation(reason) => Some(
                "Invalid file annotation: "@ + reason@,
            ),
            InvalidMetadataError::InvalidKey(_) => None,
        }
    }

    /// Writes the error out for a reader.
    pub fn message(&self) -> (text: String)
        requires
            self.message_text() is Some,
        ensures
            self.message_text() == Some(text@),
    {
        match self {
            InvalidMetadataError::InvalidFileAnnotation(reason) => {
                String::from_str("Invalid file annotation: ").concat(reason.as_str())
            },
            _ => String::from_str("Missing Type annotation."),
        }
    }
}

} // verus!

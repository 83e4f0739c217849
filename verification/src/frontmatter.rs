//! The metadata block at the head of a note.
//!
//! A note may begin with a block of YAML between two lines of three dashes.
//! This module finds the block, has it parsed, and adds the time of the
//! note's last change to what was found.

use vstd::prelude::*;

use crate::reply::{internal_error, Failure, INTERNAL_SERVER_ERROR};
use crate::text::{chars_of, find_first, first_occurrence};
use crate::value::{
    distinct_keys, entries_view, items_view, lemma_entries_view, lemma_items_view, lemma_set_entry,
    put_entry, set_entry, well_formed, StructuredValue, ValueView,
};

verus! {

/// Makes `serde_json::Value` known as a type whose inside is not looked
/// into: a JSON value is carried as it is, and opened by `open_json` alone.
#[verifier::external_type_specification]
#[verifier::external_body]
pub struct ExJsonValue(serde_json::Value);

/// What a `serde_json::Value` holds, as a structured value: variant for
/// variant, a number as its decimal text, the entries of an object in the
/// order in which its map hands them out.
pub uninterp spec fn json_value(v: serde_json::Value) -> ValueView;

/// What a text gives when `serde_yaml::from_str` reads it as one YAML value
/// and `serde_json::to_value` carries that value over to JSON; `None` where
/// either of the two fails.
pub uninterp spec fn yaml_document(text: Seq<char>) -> Option<ValueView>;

/// A `serde_json::Value` opened by one level: its variant, with the values
/// below it still closed.
pub enum JsonShape {
    Null,
    Bool(bool),
    Number(String),
    Text(String),
    Array(Vec<serde_json::Value>),
    Object(Vec<(String, serde_json::Value)>),
}

/// The structured value that an opened `serde_json::Value` stands for.
pub open spec fn shape_value(shape: JsonShape) -> ValueView {
    match shape {
        JsonShape::Null => ValueView::Null,
        JsonShape::Bool(b) => ValueView::Bool(b),
        JsonShape::Number(t) => ValueView::Number(t@),
        JsonShape::Text(t) => ValueView::Text(t@),
        JsonShape::Array(items) => ValueView::Array(
            items@.map_values(|x: serde_json::Value| json_value(x)),
        ),
        JsonShape::Object(entries) => ValueView::Object(
            entries@.map_values(|e: (String, serde_json::Value)| (e.0@, json_value(e.1))),
        ),
    }
}

/// Takes a `serde_json::Value` apart by matching on its six variants and
/// moving the fields out; a number is handed on as the text that
/// `serde_json::Number` displays, an object as the pairs that its map yields.
/// The contract says that the value holds what the parts hold, and that the
/// keys of an object differ from one another, as the keys of a map do.
#[verifier::external_body]
fn open_json(v: serde_json::Value) -> (shape: JsonShape)
    ensures
        json_value(v) == shape_value(shape),
        shape matches JsonShape::Object(entries) ==> forall|i: int, j: int|
            0 <= i < j < entries@.len() ==> (#[trigger] entries@[i]).0@ != (#[trigger] entries@[j]).0@,
{
    match v {
        serde_json::Value::Null => JsonShape::Null,
        serde_json::Value::Bool(b) => JsonShape::Bool(b),
        serde_json::Value::Number(n) => JsonShape::Number(n.to_string()),
        serde_json::Value::String(s) => JsonShape::Text(s),
        serde_json::Value::Array(items) => JsonShape::Array(items),
        serde_json::Value::Object(map) => JsonShape::Object(map.into_iter().collect()),
    }
}

/// Reads a text as YAML with `serde_yaml::from_str` and carries the value
/// over to JSON with `serde_json::to_value`. The result depends on the text
/// alone; the contract gives it the name `yaml_document` and promises neither
/// success nor anything of what was read.
#[verifier::external_body]
fn parse_yaml(text: &str) -> (r: Option<serde_json::Value>)
    ensures
        match r {
            Some(v) => yaml_document(text@) == Some(json_value(v)),
            None => yaml_document(text@) is None,
        },
{
    let yaml = serde_yaml::from_str::<serde_yaml::Value>(text).ok()?;
    serde_json::to_value(yaml).ok()
}

/// Turns a JSON value into a structured value, level by level.
pub fn from_json(v: serde_json::Value) -> (r: StructuredValue)
    ensures
        r@ == json_value(v),
        well_formed(r@),
    decreases json_value(v),
{
    let ghost whole = json_value(v);
    match open_json(v) {
        JsonShape::Null => StructuredValue::Null,
        JsonShape::Bool(b) => StructuredValue::Bool(b),
        JsonShape::Number(t) => StructuredValue::Number(t),
        JsonShape::Text(t) => StructuredValue::Text(t),
        JsonShape::Array(items) => {
            let ghost all = items@;
            let ghost below = all.map_values(|x: serde_json::Value| json_value(x));
            let mut out: Vec<StructuredValue> = Vec::new();
            for item in it: items
                invariant
                    it.seq() == all,
                    whole == json_value(v),
                    whole == ValueView::Array(below),
                    below == all.map_values(|x: serde_json::Value| json_value(x)),
                    out@.len() == it.index(),
                    forall|k: int|
                        0 <= k < out@.len() ==> (#[trigger] out@[k])@ == below[k] && well_formed(
                            out@[k]@,
                        ),
            {
                proof {
                    assert(below[it.index()] == json_value(item));
                    assert(whole->Array_0 == below);
                    assert(decreases_to!(whole => whole->Array_0));
                    assert(decreases_to!(below => below[it.index()]));
                }
                let one = from_json(item);
                out.push(one);
            }
            proof {
                lemma_items_view(out@);
                assert(items_view(out@) =~= below);
            }
            StructuredValue::Array(out)
        },
        JsonShape::Object(entries) => {
            let ghost all = entries@;
            let ghost below = all.map_values(|e: (String, serde_json::Value)| (e.0@, json_value(e.1)));
            let mut out: Vec<(String, StructuredValue)> = Vec::new();
            for entry in it: entries
                invariant
                    it.seq() == all,
                    whole == json_value(v),
                    whole == ValueView::Object(below),
                    below == all.map_values(|e: (String, serde_json::Value)| (e.0@, json_value(e.1))),
                    out@.len() == it.index(),
                    forall|k: int|
                        0 <= k < out@.len() ==> (#[trigger] out@[k]).0@ == below[k].0 && out@[k].1@
                            == below[k].1 && well_formed(out@[k].1@),
            {
                proof {
                    assert(below[it.index()].1 == json_value(entry.1));
                    assert(whole->Object_0 == below);
                    assert(decreases_to!(whole => whole->Object_0));
                    assert(decreases_to!(below => below[it.index()]));
                    assert(decreases_to!(below[it.index()] => below[it.index()].1));
                }
                let (key, inner) = entry;
                let one = from_json(inner);
                out.push((key, one));
            }
            proof {
                lemma_entries_view(out@);
                assert(entries_view(out@) =~= below);
                assert forall|i: int, j: int| 0 <= i < j < below.len() implies (#[trigger] below[i]).0
                    != (#[trigger] below[j]).0 by {
                    assert(all[i].0@ != all[j].0@);
                }
            }
            StructuredValue::Object(out)
        },
    }
}


/// The three dashes that open a metadata block.
pub open spec fn opening_marker() -> Seq<char> {
    seq!['-', '-', '-']
}

/// The line of three dashes that closes a metadata block, with the line
/// breaks around it.
pub open spec fn closing_marker() -> Seq<char> {
    seq!['\n', '-', '-', '-', '\n']
}

/// Whether a text begins with the three dashes.
pub open spec fn opens_with_marker(raw: Seq<char>) -> bool {
    raw.len() >= 3 && raw.subrange(0, 3) == opening_marker()
}

/// A note's text taken apart. Where the text begins with the three dashes
/// and a closing line follows, the first part is what stands between the
/// fourth character and the first closing line, and the second part is what
/// follows that line. Otherwise there is no first part, and the second part
/// is the whole text.
pub open spec fn split_spec(raw: Seq<char>) -> (Option<Seq<char>>, Seq<char>) {
    if opens_with_marker(raw) {
        match first_occurrence(raw, closing_marker()) {
            Some(end) => (
                Some(
                    if end < 4 {
                        Seq::empty()
                    } else {
                        raw.subrange(4, end)
                    },
                ),
                raw.skip(end + 5),
            ),
            None => (None, raw),
        }
    } else {
        (None, raw)
    }
}

/// Takes a note's text apart into the text of its metadata block, if it has
/// one, and its body.
pub fn split_frontmatter(raw: &str) -> (r: (Option<String>, String))
    ensures
        r.1@ == split_spec(raw@).1,
        match r.0 {
            Some(block) => split_spec(raw@).0 == Some(block@),
            None => split_spec(raw@).0 is None,
        },
{
    let chars = chars_of(raw);
    if chars.len() < 3 || chars[0] != '-' || chars[1] != '-' || chars[2] != '-' {
        proof {
            if raw@.len() >= 3 {
                let head = raw@.subrange(0, 3);
                assert(head[0] == raw@[0] && head[1] == raw@[1] && head[2] == raw@[2]);
            }
        }
        return (None, raw.to_owned());
    }
    assert(raw@.subrange(0, 3) =~= opening_marker());
    let mut closing: Vec<char> = Vec::new();
    closing.push('\n');
    closing.push('-');
    closing.push('-');
    closing.push('-');
    closing.push('\n');
    assert(closing@ =~= closing_marker());
    match find_first(&chars, &closing) {
        Some(end) => {
            let block = if end < 4 {
                String::new()
            } else {
                raw.substring_char(4, end).to_owned()
            };
            let body = raw.substring_char(end + 5, chars.len()).to_owned();
            assert(body@ =~= raw@.skip(end as int + 5));
            (Some(block), body)
        },
        None => (None, raw.to_owned()),
    }
}

/// The metadata that a parsed block gives: what was read, or the empty
/// object where the block could not be read.
pub open spec fn or_empty(parsed: Option<ValueView>) -> ValueView {
    match parsed {
        Some(v) => v,
        None => ValueView::Object(Seq::empty()),
    }
}

/// The metadata of a note whose block, if it has one, is this text.
pub open spec fn frontmatter_spec(block: Option<Seq<char>>) -> ValueView {
    match block {
        Some(text) => or_empty(yaml_document(text)),
        None => ValueView::Object(Seq::empty()),
    }
}

/// Settles what the parser gave: a block that could not be read counts as
/// the empty object, and the failure goes no further.
pub fn frontmatter_or_empty(parsed: Option<StructuredValue>) -> (r: StructuredValue)
    ensures
        r@ == or_empty(
            match parsed {
                Some(v) => Some(v@),
                None => None,
            },
        ),
        (parsed matches Some(v) ==> well_formed(v@)) ==> well_formed(r@),
{
    match parsed {
        Some(v) => v,
        None => StructuredValue::empty_object(),
    }
}

/// Reads the text of a metadata block.
pub fn parse_frontmatter(block: &str) -> (r: StructuredValue)
    ensures
        r@ == or_empty(yaml_document(block@)),
        well_formed(r@),
{
    let parsed = match parse_yaml(block) {
        Some(v) => Some(from_json(v)),
        None => None,
    };
    frontmatter_or_empty(parsed)
}

/// Takes a note's text apart into its metadata and its body. A text that
/// does not begin with the three dashes, or in which no closing line follows
/// them, has the empty object for metadata and itself for body.
pub fn extract(raw: &str) -> (r: (StructuredValue, String))
    ensures
        r.0@ == frontmatter_spec(split_spec(raw@).0),
        r.1@ == split_spec(raw@).1,
        well_formed(r.0@),
        !opens_with_marker(raw@) ==> r.0@ == ValueView::Object(Seq::empty()) && r.1@ == raw@,
{
    let (block, body) = split_frontmatter(raw);
    let frontmatter = match block {
        Some(text) => parse_frontmatter(text.as_str()),
        None => StructuredValue::empty_object(),
    };
    (frontmatter, body)
}

/// The key under which the time of a note's last change is kept.
pub open spec fn last_modified_key() -> Seq<char> {
    "last_modified"@
}

/// Metadata with the time of the last change added. An object gets the time
/// under its key, in place of what the key held; any other value gives way to
/// an object that holds the time alone.
pub open spec fn with_last_modified(frontmatter: ValueView, stamp: Seq<char>) -> ValueView {
    match frontmatter {
        ValueView::Object(entries) => ValueView::Object(
            set_entry(entries, last_modified_key(), ValueView::Text(stamp)),
        ),
        _ => ValueView::Object(seq![(last_modified_key(), ValueView::Text(stamp))]),
    }
}

/// Adds the time of a note's last change to its metadata.
pub fn inject_last_modified(frontmatter: StructuredValue, stamp: &str) -> (r: StructuredValue)
    ensures
        r@ == with_last_modified(frontmatter@, stamp@),
        well_formed(frontmatter@) ==> well_formed(r@),
{
    let key = "last_modified".to_owned();
    let value = StructuredValue::Text(stamp.to_owned());
    proof {
        lemma_with_last_modified_well_formed(frontmatter@, stamp@);
    }
    match frontmatter {
        StructuredValue::Object(entries) => {
            let mut entries = entries;
            put_entry(&mut entries, key, value);
            StructuredValue::Object(entries)
        },
        _ => {
            let mut entries: Vec<(String, StructuredValue)> = Vec::new();
            entries.push((key, value));
            proof {
                lemma_entries_view(entries@);
                assert(entries_view(entries@) =~= seq![(last_modified_key(), ValueView::Text(stamp@))]);
            }
            StructuredValue::Object(entries)
        },
    }
}

/// Metadata with the time added is an object that holds the time under its
/// key and, where it was an object before, everything else that it held; and
/// it is well formed where the metadata was.
pub proof fn lemma_with_last_modified_well_formed(frontmatter: ValueView, stamp: Seq<char>)
    ensures
        with_last_modified(frontmatter, stamp) is Object,
        crate::value::lookup(with_last_modified(frontmatter, stamp)->Object_0, last_modified_key())
            == Some(ValueView::Text(stamp)),
        forall|other: Seq<char>|
            other != last_modified_key() && frontmatter is Object ==> crate::value::lookup(
                with_last_modified(frontmatter, stamp)->Object_0,
                other,
            ) == #[trigger] crate::value::lookup(frontmatter->Object_0, other),
        well_formed(frontmatter) ==> well_formed(with_last_modified(frontmatter, stamp)),
{
    let key = last_modified_key();
    let value = ValueView::Text(stamp);
    match frontmatter {
        ValueView::Object(entries) => {
            let after = set_entry(entries, key, value);
            lemma_set_entry(entries, key, value, key);
            assert forall|other: Seq<char>| other != key implies crate::value::lookup(after, other)
                == #[trigger] crate::value::lookup(entries, other) by {
                lemma_set_entry(entries, key, value, other);
            }
            if well_formed(frontmatter) {
                assert forall|i: int| 0 <= i < after.len() implies well_formed(
                    (#[trigger] after[i]).1,
                ) by {
                    assert(well_formed(value));
                    match crate::value::key_index(entries, key) {
                        Some(at) => {
                            assert(crate::value::is_key_at(entries, key, at));
                            if i != at {
                                assert(after[i] == entries[i]);
                                assert(well_formed(entries[i].1));
                            }
                        },
                        None => {
                            if i < entries.len() {
                                assert(after[i] == entries[i]);
                                assert(well_formed(entries[i].1));
                            }
                        },
                    }
                }
            }
        },
        _ => {
            let after = seq![(key, value)];
            assert(crate::value::is_key_at(after, key, 0));
            crate::value::lemma_key_index_found(after, key, 0);
            assert(well_formed(value));
            assert(distinct_keys(after));
            assert forall|i: int| 0 <= i < after.len() implies well_formed((#[trigger] after[i]).1) by {
                assert(after[i] == (key, value));
            }
            assert(well_formed(ValueView::Object(after)));
        },
    }
}

/// The query of the route of a single note: the note's path relative to the
/// vault's root.
#[derive(Clone, Debug, PartialEq, Eq)]
pub struct NoteQuery {
    relpath: String,
}

impl NoteQuery {
    /// The query for the note at this path.
    pub fn new(relpath: String) -> (query: NoteQuery)
        ensures
            query.relpath_spec() == relpath@,
    {
        NoteQuery { relpath }
    }

    /// The path that the query asks for.
    pub closed spec fn relpath_spec(&self) -> Seq<char> {
        self.relpath@
    }

    /// The path that the query asks for.
    pub fn relpath(&self) -> (path: &str)
        ensures
            path@ == self.relpath_spec(),
    {
        self.relpath.as_str()
    }
}

/// A note as it is shown to a client: its title, its metadata with the time
/// of its last change, and its body.
#[derive(Debug, PartialEq, Eq)]
pub struct NoteContent {
    pub title: String,
    pub frontmatter: StructuredValue,
    pub content: String,
}

/// Answers the route of a single note from what the storage layer handed
/// over: the note's text or the failure to read it, the time of its last
/// change, and its title if one was found. A note that could not be read
/// gives the failure's text under the status of an internal error; a title
/// that was not found is empty.
pub fn note_content(raw: Result<String, String>, last_modified: &str, title: Option<String>) -> (r:
    Result<NoteContent, Failure>)
    ensures
        match raw {
            Ok(text) => r matches Ok(note) && note.frontmatter@ == with_last_modified(
                frontmatter_spec(split_spec(text@).0),
                last_modified@,
            ) && note.content@ == split_spec(text@).1 && note.title@ == (match title {
                Some(t) => t@,
                None => Seq::empty(),
            }) && well_formed(note.frontmatter@),
            Err(e) => r matches Err(f) && f.status == INTERNAL_SERVER_ERROR && f.message@ == e@,
        },
{
    match raw {
        Ok(text) => {
            let (found, content) = extract(text.as_str());
            let frontmatter = inject_last_modified(found, last_modified);
            let title = match title {
                Some(t) => t,
                None => String::new(),
            };
            Ok(NoteContent { title, frontmatter, content })
        },
        Err(e) => Err(internal_error(e)),
    }
}

} // verus!

use notemancy_server::frontmatter::{
    extract, frontmatter_or_empty, from_json, inject_last_modified, note_content,
    parse_frontmatter, split_frontmatter, NoteContent,
};
use notemancy_server::reply::Failure;
use notemancy_server::value::{find_key, put_entry, StructuredValue};

fn text(s: &str) -> StructuredValue {
    StructuredValue::Text(s.to_string())
}

fn number(s: &str) -> StructuredValue {
    StructuredValue::Number(s.to_string())
}

fn object(entries: Vec<(&str, StructuredValue)>) -> StructuredValue {
    StructuredValue::Object(entries.into_iter().map(|(k, v)| (k.to_string(), v)).collect())
}

#[test]
fn plain_text_has_empty_metadata_and_is_its_own_body() {
    let (frontmatter, body) = extract("plain text, no markers");
    assert_eq!(frontmatter, object(vec![]));
    assert_eq!(body, "plain text, no markers");
}

#[test]
fn a_block_is_parsed_and_the_time_is_added() {
    let r = note_content(
        Ok("---\ntitle: X\n---\nBody".to_string()),
        "2024-05-01T12:00:00+02:00",
        Some("X".to_string()),
    );
    let expected = NoteContent {
        title: "X".to_string(),
        frontmatter: object(vec![
            ("title", text("X")),
            ("last_modified", text("2024-05-01T12:00:00+02:00")),
        ]),
        content: "Body".to_string(),
    };
    assert_eq!(r, Ok(expected));
}

#[test]
fn extract_gives_the_block_without_the_time() {
    let (frontmatter, body) = extract("---\ntitle: X\n---\nBody");
    assert_eq!(frontmatter, object(vec![("title", text("X"))]));
    assert_eq!(body, "Body");
}

#[test]
fn a_note_that_could_not_be_read_is_an_internal_error() {
    let r = note_content(Err("no such note".to_string()), "t", None);
    assert_eq!(r, Err(Failure { status: 500, message: "no such note".to_string() }));
}

#[test]
fn a_title_that_was_not_found_is_empty() {
    let r = note_content(Ok("Body only".to_string()), "t0", None).unwrap();
    assert_eq!(r.title, "");
    assert_eq!(r.content, "Body only");
    assert_eq!(r.frontmatter, object(vec![("last_modified", text("t0"))]));
}

#[test]
fn the_text_is_split_at_the_first_closing_line() {
    assert_eq!(
        split_frontmatter("---\na: 1\n---\nfirst\n---\nsecond"),
        (Some("a: 1".to_string()), "first\n---\nsecond".to_string())
    );
    assert_eq!(split_frontmatter("no block"), (None, "no block".to_string()));
    assert_eq!(split_frontmatter(""), (None, "".to_string()));
    assert_eq!(split_frontmatter("--"), (None, "--".to_string()));
    assert_eq!(split_frontmatter("--\n---\nx"), (None, "--\n---\nx".to_string()));
}

#[test]
fn a_block_without_a_closing_line_is_no_block() {
    let raw = "---\ntitle: X\nBody without end";
    assert_eq!(split_frontmatter(raw), (None, raw.to_string()));
    let (frontmatter, body) = extract(raw);
    assert_eq!(frontmatter, object(vec![]));
    assert_eq!(body, raw);
    let dashes_at_the_end = "---\ntitle: X\n---";
    assert_eq!(split_frontmatter(dashes_at_the_end), (None, dashes_at_the_end.to_string()));
}

#[test]
fn a_closing_line_right_after_the_opening_gives_an_empty_block() {
    assert_eq!(split_frontmatter("---\n---\nBody"), (Some("".to_string()), "Body".to_string()));
    let (frontmatter, body) = extract("---\n---\nBody");
    assert_eq!(frontmatter, StructuredValue::Null);
    assert_eq!(body, "Body");
}

#[test]
fn the_character_after_the_dashes_is_skipped() {
    assert_eq!(
        split_frontmatter("---xa: 1\n---\nBody"),
        (Some("a: 1".to_string()), "Body".to_string())
    );
    assert_eq!(
        split_frontmatter("---\u{e9}a: 1\n---\nB\u{e9}"),
        (Some("a: 1".to_string()), "B\u{e9}".to_string())
    );
}

#[test]
fn a_block_that_cannot_be_read_counts_as_empty() {
    let (frontmatter, body) = extract("---\ntitle: [unclosed\n---\nBody");
    assert_eq!(frontmatter, object(vec![]));
    assert_eq!(body, "Body");
    assert_eq!(parse_frontmatter("a: b: c: ["), object(vec![]));
    assert_eq!(frontmatter_or_empty(None), object(vec![]));
    assert_eq!(frontmatter_or_empty(Some(text("x"))), text("x"));
}

#[test]
fn every_kind_of_value_is_read() {
    let block = "name: note\ncount: 3\nratio: 2.5\nbelow: -7\ndone: true\nnothing: null\ntags:\n  - a\n  - 1\ninner:\n  key: value\n";
    let expected = object(vec![
        ("below", number("-7")),
        ("count", number("3")),
        ("done", StructuredValue::Bool(true)),
        ("inner", object(vec![("key", text("value"))])),
        ("name", text("note")),
        ("nothing", StructuredValue::Null),
        ("ratio", number("2.5")),
        ("tags", StructuredValue::Array(vec![text("a"), number("1")])),
    ]);
    assert_eq!(parse_frontmatter(block), expected);
}

#[test]
fn a_block_that_is_no_mapping_gives_way_to_the_time() {
    let (frontmatter, body) = extract("---\n- a\n- b\n---\nBody");
    assert_eq!(frontmatter, StructuredValue::Array(vec![text("a"), text("b")]));
    assert_eq!(body, "Body");
    assert_eq!(
        inject_last_modified(frontmatter, "t1"),
        object(vec![("last_modified", text("t1"))])
    );
    assert_eq!(
        inject_last_modified(text("just a scalar"), "t2"),
        object(vec![("last_modified", text("t2"))])
    );
    assert_eq!(
        inject_last_modified(StructuredValue::Null, "t3"),
        object(vec![("last_modified", text("t3"))])
    );
}

#[test]
fn the_time_replaces_what_the_block_said_of_it() {
    let (frontmatter, _) = extract("---\nlast_modified: long ago\ntitle: X\n---\n");
    assert_eq!(
        inject_last_modified(frontmatter, "now"),
        object(vec![("last_modified", text("now")), ("title", text("X"))])
    );
}

#[test]
fn the_time_is_added_to_an_empty_object() {
    assert_eq!(
        inject_last_modified(object(vec![]), "now"),
        object(vec![("last_modified", text("now"))])
    );
}

#[test]
fn json_values_are_carried_over_level_by_level() {
    let mut inner = serde_json::Map::new();
    inner.insert("k".to_string(), serde_json::Value::Bool(false));
    let mut map = serde_json::Map::new();
    map.insert("n".to_string(), serde_json::Value::Number(serde_json::Number::from(7u64)));
    map.insert("m".to_string(), serde_json::Value::Number(serde_json::Number::from(-7i64)));
    map.insert("s".to_string(), serde_json::Value::String("text".to_string()));
    map.insert(
        "a".to_string(),
        serde_json::Value::Array(vec![
            serde_json::Value::Null,
            serde_json::Value::Object(inner),
            serde_json::Value::Array(vec![]),
        ]),
    );
    let expected = object(vec![
        (
            "a",
            StructuredValue::Array(vec![
                StructuredValue::Null,
                object(vec![("k", StructuredValue::Bool(false))]),
                StructuredValue::Array(vec![]),
            ]),
        ),
        ("m", number("-7")),
        ("n", number("7")),
        ("s", text("text")),
    ]);
    assert_eq!(from_json(serde_json::Value::Object(map)), expected);
    assert_eq!(from_json(serde_json::Value::Null), StructuredValue::Null);
}

#[test]
fn entries_are_found_and_put_by_key() {
    let mut entries = vec![("a".to_string(), text("1")), ("b".to_string(), text("2"))];
    assert_eq!(find_key(&entries, &"a".to_string()), Some(0));
    assert_eq!(find_key(&entries, &"b".to_string()), Some(1));
    assert_eq!(find_key(&entries, &"c".to_string()), None);
    put_entry(&mut entries, "b".to_string(), text("3"));
    put_entry(&mut entries, "c".to_string(), text("4"));
    assert_eq!(
        entries,
        vec![
            ("a".to_string(), text("1")),
            ("b".to_string(), text("3")),
            ("c".to_string(), text("4")),
        ]
    );
    assert_eq!(StructuredValue::empty_object(), object(vec![]));
}

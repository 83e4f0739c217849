use notemancy_server::snippet::{
    earliest_match, extract_snippet, lower_terms, snippet_at, split_terms,
};
use notemancy_server::text::{chars_le, chars_of, find_first, matches_at};

fn chars(s: &str) -> Vec<char> {
    s.chars().collect()
}

#[test]
fn a_short_content_is_shown_whole_between_ellipses() {
    let snippet = extract_snippet("The quick brown fox jumps", "brown");
    assert_eq!(snippet, "...The quick brown fox jumps...");
    assert!(snippet.contains("brown"));
    assert!(snippet.chars().count() <= 103);
}

#[test]
fn no_match_shows_the_head_of_the_content() {
    let content = "a".repeat(150);
    assert_eq!(extract_snippet(&content, "zzz"), "a".repeat(100));
    assert_eq!(extract_snippet("short", "zzz"), "short");
    assert_eq!(extract_snippet("", "zzz"), "");
    assert_eq!(extract_snippet("  padded  ", "zzz"), "  padded  ");
}

#[test]
fn a_query_without_terms_matches_nothing() {
    let content = "b".repeat(120);
    assert_eq!(extract_snippet(&content, ""), "b".repeat(100));
    assert_eq!(extract_snippet(&content, " \t\n "), "b".repeat(100));
}

#[test]
fn the_window_is_fifty_characters_to_each_side() {
    let content = format!("{}needle{}", "x".repeat(80), "y".repeat(80));
    let expected = format!("...{}needle{}...", "x".repeat(50), "y".repeat(44));
    let snippet = extract_snippet(&content, "needle");
    assert_eq!(snippet, expected);
    assert_eq!(snippet.chars().count(), 106);
}

#[test]
fn the_match_is_found_whatever_the_case() {
    assert_eq!(extract_snippet("Hello World", "WORLD"), "...Hello World...");
    let content = format!("{}NeEdLe{}", "x".repeat(60), "y".repeat(60));
    let expected = format!("...{}NeEdLe{}...", "x".repeat(50), "y".repeat(44));
    assert_eq!(extract_snippet(&content, "nEeDlE"), expected);
}

#[test]
fn the_earliest_term_decides() {
    let content = format!("beta{}gamma", "-".repeat(100));
    let expected = format!("...beta{}...", "-".repeat(46));
    assert_eq!(extract_snippet(&content, "gamma beta"), expected);
    assert_eq!(extract_snippet(&content, "beta gamma"), expected);
    assert_eq!(extract_snippet(&content, "missing  beta"), expected);
}

#[test]
fn the_window_is_trimmed() {
    let content = format!("ab{}hit", " ".repeat(50));
    assert_eq!(extract_snippet(&content, "hit"), "...hit...");
    let content = format!("hit{}tail", " ".repeat(60));
    assert_eq!(extract_snippet(&content, "hit"), "...hit...");
}

#[test]
fn characters_are_counted_not_bytes() {
    let content = format!("{}needle{}", "\u{e9}".repeat(70), "\u{fc}".repeat(70));
    let expected = format!("...{}needle{}...", "\u{e9}".repeat(50), "\u{fc}".repeat(44));
    assert_eq!(extract_snippet(&content, "NEEDLE"), expected);
    assert_eq!(extract_snippet("\u{c0}\u{c9}\u{ce} stra\u{df}e", "\u{c9}"), "...\u{c0}\u{c9}\u{ce} stra\u{df}e...");
}

#[test]
fn a_match_past_the_end_of_the_content_gives_an_empty_window() {
    let content = format!("{}x", "\u{130}".repeat(60));
    assert_eq!(extract_snippet(&content, "x"), "......");
}

#[test]
fn a_query_is_split_at_white_space() {
    assert_eq!(split_terms("  foo\tbar \n baz "), vec!["foo", "bar", "baz"]);
    assert_eq!(split_terms("one"), vec!["one"]);
    assert_eq!(split_terms("a\u{a0}b\u{3000}c"), vec!["a", "b", "c"]);
    assert!(split_terms("").is_empty());
    assert!(split_terms("   ").is_empty());
}

#[test]
fn terms_are_put_in_lower_case() {
    let terms = vec!["FoO".to_string(), "\u{c9}T\u{c9}".to_string(), "ok".to_string()];
    assert_eq!(lower_terms(&terms), vec![chars("foo"), chars("\u{e9}t\u{e9}"), chars("ok")]);
}

#[test]
fn the_earliest_match_of_any_term() {
    let content = chars("one two three two");
    assert_eq!(earliest_match(&content, &vec![chars("three"), chars("two")]), Some(4));
    assert_eq!(earliest_match(&content, &vec![chars("two"), chars("one")]), Some(0));
    assert_eq!(earliest_match(&content, &vec![chars("four")]), None);
    assert_eq!(earliest_match(&content, &vec![]), None);
    assert_eq!(earliest_match(&content, &vec![chars("four"), chars("e")]), Some(2));
}

#[test]
fn the_excerpt_at_a_given_place() {
    let content = "0123456789".repeat(20);
    assert_eq!(snippet_at(&content, None), "0123456789".repeat(10));
    assert_eq!(
        snippet_at(&content, Some(0)),
        format!("...{}...", "0123456789".repeat(5))
    );
    assert_eq!(
        snippet_at(&content, Some(50)),
        format!("...{}...", "0123456789".repeat(10))
    );
    assert_eq!(
        snippet_at(&content, Some(51)),
        format!("...{}0...", "1234567890".repeat(9) + "123456789")
    );
    assert_eq!(
        snippet_at(&content, Some(190)),
        format!("...{}...", "0123456789".repeat(6))
    );
    assert_eq!(snippet_at(&content, Some(200)), format!("...{}...", "0123456789".repeat(5)));
    assert_eq!(snippet_at(&content, Some(250)), format!("...{}...", ""));
    assert_eq!(snippet_at(&content, Some(usize::MAX)), "......");
    assert_eq!(snippet_at("   ", Some(1)), "......");
}

#[test]
fn a_text_is_searched_for_another() {
    assert_eq!(find_first(&chars("abcabc"), &chars("bc")), Some(1));
    assert_eq!(find_first(&chars("abcabc"), &chars("abcabc")), Some(0));
    assert_eq!(find_first(&chars("abcabc"), &chars("cb")), None);
    assert_eq!(find_first(&chars("abc"), &chars("abcd")), None);
    assert_eq!(find_first(&chars("abc"), &chars("")), Some(0));
    assert_eq!(find_first(&chars(""), &chars("")), Some(0));
    assert_eq!(find_first(&chars("aab"), &chars("ab")), Some(1));
    assert!(matches_at(&chars("hello"), &chars("ll"), 2));
    assert!(!matches_at(&chars("hello"), &chars("ll"), 1));
}

#[test]
fn texts_are_compared_in_dictionary_order() {
    assert!(chars_le(&chars(""), &chars("")));
    assert!(chars_le(&chars(""), &chars("a")));
    assert!(!chars_le(&chars("a"), &chars("")));
    assert!(chars_le(&chars("abc"), &chars("abd")));
    assert!(!chars_le(&chars("abd"), &chars("abc")));
    assert!(chars_le(&chars("ab"), &chars("abc")));
    assert!(chars_le(&chars("Z"), &chars("a")));
    assert!(chars_le(&chars("z"), &chars("\u{e9}")));
    assert!(chars_le(&chars("same"), &chars("same")));
    assert_eq!(chars_of("h\u{e9}llo"), chars("h\u{e9}llo"));
}

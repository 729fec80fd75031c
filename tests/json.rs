use changelog_manager::entry::{Entry, EntryType};
use changelog_manager::error::ChangelogError;

fn entry(description: Option<&str>, breaking: bool) -> Entry {
    Entry {
        author: "Maxime Morille".to_string(),
        title: "Test".to_string(),
        description: description.map(|d| d.to_string()),
        category: EntryType::Added,
        is_breaking_change: breaking,
        issue: "123".to_string(),
    }
}

#[test]
fn test_minimalist_entry_to_json() {
    let entry = entry(None, false);
    assert_eq!(
        entry.to_json().expect("Should serialize to JSON"),
        r#"{
    "author": "Maxime Morille",
    "title": "Test",
    "description": null,
    "type": "Added",
    "isBreakingChange": false,
    "issue": "123"
}"#
    );
}

#[test]
fn test_complete_entry_to_json() {
    let entry = entry(Some("This is a test"), true);
    assert_eq!(
        entry.to_json().expect("Should serialize to JSON"),
        r#"{
    "author": "Maxime Morille",
    "title": "Test",
    "description": "This is a test",
    "type": "Added",
    "isBreakingChange": true,
    "issue": "123"
}"#
    );
}

#[test]
fn special_characters_are_escaped() {
    let mut e = entry(Some("line one\nline \"two\"\t\\ \u{1}"), false);
    e.title = "café ✓".to_string();
    let json = e.to_json().unwrap();
    assert!(json.contains(r#""description": "line one\nline \"two\"\t\\ \u0001""#));
    assert!(json.contains("\"title\": \"café ✓\""));
    assert_eq!(Entry::from_json(&json).unwrap(), e);
}

#[test]
fn round_trip_of_each_category() {
    for category in [
        EntryType::Added,
        EntryType::Changed,
        EntryType::Fixed,
        EntryType::Removed,
        EntryType::Deprecated,
        EntryType::Security,
        EntryType::Technical,
    ] {
        let mut e = entry(Some(""), true);
        e.category = category;
        let json = e.to_json().unwrap();
        assert_eq!(Entry::from_json(&json).unwrap(), e);
    }
}

#[test]
fn reads_members_in_any_order_without_description() {
    let text = r#"{
    "author": "username",
    "title": "Another title",
    "type": "Changed",
    "isBreakingChange": false,
    "issue": "https://gitlab.url/issues/43"
}"#
    .to_string();
    let e = Entry::from_json(&text).unwrap();
    assert_eq!(e.title, "Another title");
    assert_eq!(e.description, None);
    assert_eq!(e.category, EntryType::Changed);

    let compact = r#"{"issue":"1","isBreakingChange":true,"type":"Security","description":"déjà 😀","title":"t","author":"a"}"#.to_string();
    let e = Entry::from_json(&compact).unwrap();
    assert_eq!(e.description.as_deref(), Some("déjà 😀"));
    assert!(e.is_breaking_change);
    assert_eq!(e.category, EntryType::Security);
}

#[test]
fn malformed_documents_are_parse_errors() {
    let cases = [
        "",
        "not json",
        r#"{"author": "a", "title": "t", "type": "Added", "isBreakingChange": false}"#,
        r#"{"author": "a", "title": "t", "type": "ADDED", "isBreakingChange": false, "issue": "1"}"#,
        r#"{"author": "a", "title": "t", "type": "Added", "isBreakingChange": false, "issue": "1"} x"#,
        r#"{"author": "a", "author": "b", "title": "t", "type": "Added", "isBreakingChange": false, "issue": "1"}"#,
        r#"{"author": "a", "title": "t", "type": "Added", "isBreakingChange": "no", "issue": "1"}"#,
        r#"{"author": "a", "title": "t\ud800", "type": "Added", "isBreakingChange": false, "issue": "1"}"#,
    ];
    for text in cases {
        assert_eq!(
            Entry::from_json(&text.to_string()),
            Err(ChangelogError::ParseError),
            "{}",
            text
        );
    }
}

#[test]
fn unicode_escapes_are_decoded() {
    let text = r#"{"author":"a","title":"caf\u00e9 \ud83d\ude00 \/ \b\f\r\u0041","type":"Fixed","isBreakingChange":false,"issue":"1","description":null}"#.to_string();
    let e = Entry::from_json(&text).unwrap();
    assert_eq!(e.title, "café 😀 / \u{8}\u{c}\rA");
    assert_eq!(e.description, None);
}

#[test]
fn lone_low_surrogate_is_refused() {
    let text = r#"{"author":"a","title":"\udc00","type":"Fixed","isBreakingChange":false,"issue":"1"}"#.to_string();
    assert_eq!(Entry::from_json(&text), Err(ChangelogError::ParseError));
}

#[test]
fn unknown_members_are_skipped() {
    let text = r#"{
    "schema": 2,
    "author": "a",
    "tags": ["x", {"nested": [1, -2.5e+3, true, null]}, []],
    "title": "t",
    "extra": {},
    "type": "Removed",
    "isBreakingChange": true,
    "issue": "7",
    "ratio": 0.25
}"#
    .to_string();
    let e = Entry::from_json(&text).unwrap();
    assert_eq!(e.title, "t");
    assert_eq!(e.category, EntryType::Removed);
    assert!(e.is_breaking_change);
}

#[test]
fn malformed_unknown_values_are_parse_errors() {
    let cases = [
        r#"{"x": 01, "author": "a", "title": "t", "type": "Added", "isBreakingChange": false, "issue": "1"}"#,
        r#"{"x": [1,], "author": "a", "title": "t", "type": "Added", "isBreakingChange": false, "issue": "1"}"#,
        r#"{"x": {"a" 1}, "author": "a", "title": "t", "type": "Added", "isBreakingChange": false, "issue": "1"}"#,
        r#"{"x": [1}, "author": "a", "title": "t", "type": "Added", "isBreakingChange": false, "issue": "1"}"#,
        r#"{"x": 1., "author": "a", "title": "t", "type": "Added", "isBreakingChange": false, "issue": "1"}"#,
    ];
    for text in cases {
        assert_eq!(Entry::from_json(&text.to_string()), Err(ChangelogError::ParseError), "{}", text);
    }
}

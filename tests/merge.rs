use changelog_manager::date::ReleaseDate;
use changelog_manager::error::ChangelogError;
use changelog_manager::merge::{
    base_changelog, insert_release, merge_document, parse_entries, pending_release, release_section,
};

const BASE: &str = "# Changelog\n\nAll notable changes to this project will be documented in this file.\n\nThe format is based on [Keep a Changelog](https://keepachangelog.com/en/1.1.0/),\nand this project adheres to [Semantic Versioning](https://semver.org/spec/v2.0.0.html).\n\n## [Unreleased]\n";

fn entry_file(title: &str, description: Option<&str>, category: &str, breaking: bool, issue: &str) -> String {
    let description = match description {
        Some(d) => format!("\"{}\"", d),
        None => "null".to_string(),
    };
    format!(
        "{{\n    \"author\": \"username\",\n    \"title\": \"{}\",\n    \"description\": {},\n    \"type\": \"{}\",\n    \"isBreakingChange\": {},\n    \"issue\": \"{}\"\n}}",
        title, description, category, breaking, issue
    )
}

#[test]
fn test_merge_entries() {
    let files = vec![
        entry_file("Some title", None, "Changed", false, "42"),
        entry_file("Some important change", Some("Here we can have a migration note"), "Added", false, "43"),
        entry_file("Some title", None, "Changed", true, "44"),
    ];
    let date = ReleaseDate::new(2024, 2, 15);
    let section = pending_release(&files, &"1.0.0".to_string(), &date)
        .expect("entries should parse")
        .expect("entries are pending");
    let content = merge_document(&None, &section);
    assert_eq!(
        r#"# Changelog

All notable changes to this project will be documented in this file.

The format is based on [Keep a Changelog](https://keepachangelog.com/en/1.1.0/),
and this project adheres to [Semantic Versioning](https://semver.org/spec/v2.0.0.html).

## [Unreleased]

## [1.0.0] - 2024-02-15

### Added

- [Some important change](43)
  Here we can have a migration note

### Changed

- [**BREAKING CHANGE** Some title](44)
- [Some title](42)

"#,
        content
    );
}

#[test]
fn test_write_changelog() {
    assert_eq!(base_changelog(), BASE);
}

#[test]
fn test_update_changelog() {
    let existing = format!("{}\n## [1.2.3] - 2024-10-14\n\n### Added\n\n- Some new feature\n\n", BASE);
    let expected = format!("{}\nNew content\n\n## [1.2.3] - 2024-10-14\n\n### Added\n\n- Some new feature\n\n", BASE);
    assert_eq!(insert_release(&existing, "New content"), expected);
}

#[test]
fn test_write_changelog_with_specific_path() {
    let expected = format!("{}\nNew content\n", BASE);
    assert_eq!(merge_document(&None, "New content"), expected);
}

#[test]
fn only_the_first_anchor_receives_the_section() {
    let doc = "## [Unreleased]\nA\n## [Unreleased]\nB\n";
    assert_eq!(insert_release(doc, "S\n"), "## [Unreleased]\n\nS\n\nA\n## [Unreleased]\nB\n");
}

#[test]
fn a_document_without_anchor_is_unchanged() {
    let doc = "# Changelog\n\nNo anchor here.\n## [Unreleased]";
    assert_eq!(insert_release(doc, "S\n"), doc);
}

#[test]
fn no_pending_entry_is_a_no_op() {
    let date = ReleaseDate::new(2024, 2, 15).unwrap();
    assert_eq!(release_section(&vec![], "1.0.0", &date), Ok(None));
    assert_eq!(pending_release(&vec![], &"1.0.0".to_string(), &None), Ok(None));
}

#[test]
fn one_malformed_file_fails_the_whole_merge() {
    let files = vec![entry_file("Fine", None, "Added", false, "1"), "{ broken".to_string()];
    let date = ReleaseDate::new(2024, 2, 15).unwrap();
    assert_eq!(release_section(&files, "1.0.0", &date), Err(ChangelogError::ParseError));
}

#[test]
fn merge_test_read_empty_entries() {
    let entries = parse_entries(&vec![]).expect("entries should be read");
    assert!(entries.is_empty());
}

#[test]
fn parse_entries_reads_each_file() {
    let first_entry = r#"{
    "author": "username",
    "title": "Some title",
    "description": "A random description",
    "type": "Added",
    "isBreakingChange": true,
    "issue": "https://gitlab.url/issues/42"
}"#;
    let second_entry = r#"{
    "author": "username",
    "title": "Another title",
    "type": "Changed",
    "isBreakingChange": false,
    "issue": "https://gitlab.url/issues/43"
}"#;
    let entries = parse_entries(&vec![first_entry.to_string(), second_entry.to_string()])
        .expect("entries should be read");
    assert_eq!(entries.len(), 2);
    assert_eq!(entries[0].title, "Some title");
    assert_eq!(entries[1].description, None);
}

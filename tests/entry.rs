use std::cmp::Ordering;

use changelog_manager::entry::{Builder, Entry, EntryType};
use changelog_manager::error::{ChangelogError, RequiredField};

fn entry(title: &str, category: EntryType, breaking: bool, description: Option<&str>) -> Entry {
    Entry {
        author: "Maxime Morille".to_string(),
        title: title.to_string(),
        description: description.map(|d| d.to_string()),
        category,
        is_breaking_change: breaking,
        issue: "123".to_string(),
    }
}

#[test]
fn test_complete_entry_to_markdown() {
    let entry = entry("Test", EntryType::Added, true, Some("This is a test"));
    assert_eq!(
        "- [**BREAKING CHANGE** Test](123)\n  This is a test\n",
        entry.to_markdown()
    );
}

#[test]
fn test_simplest_entry_to_markdown() {
    let entry = entry("Test", EntryType::Added, false, None);
    assert_eq!("- [Test](123)\n", entry.to_markdown());
}

#[test]
fn empty_description_still_gives_a_continuation_line() {
    let entry = entry("Test", EntryType::Fixed, false, Some(""));
    assert_eq!("- [Test](123)\n  \n", entry.to_markdown());
}

#[test]
fn test_entry_type_display() {
    let cases = [
        (EntryType::Added, "Added"),
        (EntryType::Changed, "Changed"),
        (EntryType::Fixed, "Fixed"),
        (EntryType::Removed, "Removed"),
        (EntryType::Deprecated, "Deprecated"),
        (EntryType::Security, "Security"),
        (EntryType::Technical, "Technical"),
    ];
    for (entry_type, expected) in cases {
        assert_eq!(entry_type.to_string(), expected);
    }
}

#[test]
fn test_entry_type_from_str() {
    let cases = [
        ("ADDED", EntryType::Added),
        ("CHANGED", EntryType::Changed),
        ("FIXED", EntryType::Fixed),
        ("REMOVED", EntryType::Removed),
        ("DEPRECATED", EntryType::Deprecated),
        ("SECURITY", EntryType::Security),
        ("TECHNICAL", EntryType::Technical),
    ];
    for (token, expected) in cases {
        assert_eq!(EntryType::from_str(token).unwrap(), expected);
    }
}

#[test]
fn test_entry_type_from_str_invalid() {
    assert!(EntryType::from_str("INVALID").is_err());
}

#[test]
fn entry_type_tokens_are_case_sensitive() {
    assert!(EntryType::from_str("Added").is_err());
    assert!(EntryType::from_str("").is_err());
}

#[test]
fn test_entry_compare_with_no_breaking_change() {
    let entry1 = entry("A title coming first in alphabetical order", EntryType::Added, false, None);
    let entry2 = entry("A title coming second in alphabetical order", EntryType::Added, false, None);
    assert_eq!(entry1.cmp(&entry2), Ordering::Less);
}

#[test]
fn test_entry_compare_with_one_breaking_change() {
    let entry1 = entry("A title coming first in alphabetical order", EntryType::Added, false, None);
    let entry2 = entry(
        "A title coming second in alphabetical order, with a breaking change, should be first",
        EntryType::Added,
        true,
        None,
    );
    assert_eq!(entry1.cmp(&entry2), Ordering::Greater);
}

#[test]
fn test_entry_compare_with_two_breaking_change() {
    let entry1 = entry("A title coming first in alphabetical order", EntryType::Added, true, None);
    let entry2 = entry("A title coming second in alphabetical order", EntryType::Added, true, None);
    assert_eq!(entry1.cmp(&entry2), Ordering::Less);
}

#[test]
fn compare_equal_titles_and_prefixes() {
    let a = entry("Same", EntryType::Added, false, None);
    let b = entry("Same", EntryType::Fixed, false, None);
    assert_eq!(a.cmp(&b), Ordering::Equal);
    let short = entry("Some", EntryType::Added, false, None);
    let long = entry("Some title", EntryType::Added, false, None);
    assert_eq!(short.cmp(&long), Ordering::Less);
    assert_eq!(long.cmp(&short), Ordering::Greater);
    assert!(short.precedes(&long));
}

#[test]
fn build_applies_defaults() {
    let e = Entry::builder()
        .author("username".to_string())
        .title("Some title".to_string())
        .issue("42".to_string())
        .build()
        .expect("all required fields are set");
    assert_eq!(e.category, EntryType::Changed);
    assert!(!e.is_breaking_change);
    assert_eq!(e.description, None);
    assert_eq!(e.author, "username");
}

#[test]
fn build_reports_the_first_missing_field() {
    let missing_author = Entry::builder()
        .title("t".to_string())
        .issue("1".to_string())
        .build();
    assert_eq!(missing_author.unwrap_err(), ChangelogError::MissingField(RequiredField::Author));

    let empty_title = Entry::builder()
        .author("a".to_string())
        .title(String::new())
        .issue("1".to_string())
        .build();
    assert_eq!(empty_title.unwrap_err(), ChangelogError::MissingField(RequiredField::Title));

    let missing_issue = Entry::builder()
        .author("a".to_string())
        .title("t".to_string())
        .build();
    assert_eq!(missing_issue.unwrap_err(), ChangelogError::MissingField(RequiredField::Issue));
}

#[test]
fn build_keeps_every_field() {
    let e = Entry::builder()
        .author("username".to_string())
        .title("Some title".to_string())
        .description(Some("A random description".to_string()))
        .category(EntryType::Removed)
        .is_breaking_change(Some(true))
        .issue("64".to_string())
        .build()
        .unwrap();
    assert_eq!(e.description.as_deref(), Some("A random description"));
    assert_eq!(e.category, EntryType::Removed);
    assert!(e.is_breaking_change);
    assert_eq!(e.issue, "64");
}

use changelog_manager::date::ReleaseDate;
use changelog_manager::entry::{Builder, Entry, EntryType};
use changelog_manager::render::{entries_to_string, render_release};

fn build(title: &str, issue: &str, category: EntryType, breaking: Option<bool>, description: Option<&str>) -> Entry {
    Entry::builder()
        .author("username".to_string())
        .title(title.to_string())
        .issue(issue.to_string())
        .category(category)
        .is_breaking_change(breaking)
        .description(description.map(|d| d.to_string()))
        .build()
        .unwrap()
}

#[test]
fn test_empty_entries_to_string() {
    assert_eq!(
        "",
        entries_to_string(vec![], &"1.0.0".to_string(), &None)
            .expect("Should parse entries to string")
    );
}

#[test]
fn test_entries_to_string() {
    let entries = vec![
        build("Some title", "42", EntryType::Added, None, None),
        build("Another title", "43", EntryType::Added, None, None),
        build("A final title", "64", EntryType::Removed, Some(true), Some("A random description")),
    ];
    let expected = "## [1.0.0] - 2021-08-01\n\n### Added\n\n- [Another title](43)\n- [Some title](42)\n\n### Removed\n\n- [**BREAKING CHANGE** A final title](64)\n  A random description\n";
    let date = ReleaseDate::new(2021, 8, 1);
    assert_eq!(
        expected,
        entries_to_string(entries, &"1.0.0".to_string(), &date)
            .expect("Should parse entries to string")
    );
}

#[test]
fn release_section_scenario() {
    let entries = vec![
        build("Some title", "42", EntryType::Changed, Some(false), None),
        build("Some important change", "43", EntryType::Added, Some(false), Some("Here we can have a migration note")),
        build("Some title", "44", EntryType::Changed, Some(true), None),
    ];
    let date = ReleaseDate::new(2024, 2, 15).unwrap();
    let expected = "## [1.0.0] - 2024-02-15\n\n### Added\n\n- [Some important change](43)\n  Here we can have a migration note\n\n### Changed\n\n- [**BREAKING CHANGE** Some title](44)\n- [Some title](42)\n";
    assert_eq!(render_release(&entries, "1.0.0", &date), expected);
}

#[test]
fn breaking_changes_come_first_whatever_the_title() {
    let entries = vec![
        build("Aaa", "1", EntryType::Fixed, None, None),
        build("Zzz", "2", EntryType::Fixed, Some(true), None),
        build("Mmm", "3", EntryType::Fixed, None, None),
    ];
    let date = ReleaseDate::new(2020, 1, 2).unwrap();
    let text = render_release(&entries, "2.0.0", &date);
    assert_eq!(
        text,
        "## [2.0.0] - 2020-01-02\n\n### Fixed\n\n- [**BREAKING CHANGE** Zzz](2)\n- [Aaa](1)\n- [Mmm](3)\n"
    );
}

#[test]
fn headings_follow_the_category_order_not_the_input_order() {
    let entries = vec![
        build("t", "1", EntryType::Technical, None, None),
        build("s", "2", EntryType::Security, None, None),
        build("d", "3", EntryType::Deprecated, None, None),
        build("r", "4", EntryType::Removed, None, None),
        build("f", "5", EntryType::Fixed, None, None),
        build("c", "6", EntryType::Changed, None, None),
        build("a", "7", EntryType::Added, None, None),
    ];
    let date = ReleaseDate::new(2022, 12, 31).unwrap();
    let text = render_release(&entries, "3.1.4", &date);
    let headings: Vec<&str> = text.lines().filter(|l| l.starts_with("### ")).collect();
    assert_eq!(
        headings,
        vec![
            "### Added",
            "### Changed",
            "### Fixed",
            "### Removed",
            "### Deprecated",
            "### Security",
            "### Technical"
        ]
    );
}

#[test]
fn rendering_twice_gives_the_same_text() {
    let entries = vec![
        build("b", "1", EntryType::Added, None, None),
        build("a", "2", EntryType::Added, None, None),
        build("c", "3", EntryType::Security, Some(true), Some("note")),
    ];
    let date = ReleaseDate::new(2024, 2, 15).unwrap();
    let first = render_release(&entries, "1.0.0", &date);
    let second = render_release(&entries, "1.0.0", &date);
    assert_eq!(first, second);
    let reversed = vec![
        build("c", "3", EntryType::Security, Some(true), Some("note")),
        build("a", "2", EntryType::Added, None, None),
        build("b", "1", EntryType::Added, None, None),
    ];
    assert_eq!(render_release(&reversed, "1.0.0", &date), first);
}

#[test]
fn equal_keys_keep_their_input_order() {
    let entries = vec![
        build("Same", "1", EntryType::Added, None, None),
        build("Same", "2", EntryType::Added, None, None),
    ];
    let date = ReleaseDate::new(2024, 2, 15).unwrap();
    let text = render_release(&entries, "1.0.0", &date);
    assert!(text.ends_with("- [Same](1)\n- [Same](2)\n"));
}

#[test]
fn dates_are_zero_padded_and_signed_outside_four_digits() {
    let e = vec![build("x", "1", EntryType::Added, None, None)];
    let early = ReleaseDate::new(7, 3, 9).unwrap();
    assert!(render_release(&e, "v", &early).starts_with("## [v] - 0007-03-09\n"));
    let late = ReleaseDate::new(12345, 11, 30).unwrap();
    assert!(render_release(&e, "v", &late).starts_with("## [v] - +12345-11-30\n"));
    let negative = ReleaseDate::new(-44, 3, 15).unwrap();
    assert!(render_release(&e, "v", &negative).starts_with("## [v] - -0044-03-15\n"));
}

#[test]
fn invalid_dates_are_refused() {
    assert_eq!(ReleaseDate::new(2024, 13, 1), None);
    assert_eq!(ReleaseDate::new(2024, 0, 1), None);
    assert_eq!(ReleaseDate::new(2024, 1, 32), None);
    assert_eq!(ReleaseDate::new(300000, 1, 1), None);
}

#[test]
fn a_missing_date_means_today() {
    let entries = vec![build("x", "1", EntryType::Added, None, None)];
    let text = entries_to_string(entries, &"9.9.9".to_string(), &None).unwrap();
    let header = text.lines().next().unwrap();
    assert!(header.starts_with("## [9.9.9] - "));
    let date = &header["## [9.9.9] - ".len()..];
    assert_eq!(date.len(), 10);
    let parts: Vec<&str> = date.split('-').collect();
    assert_eq!(parts.len(), 3);
    assert!(parts.iter().all(|p| p.chars().all(|c| c.is_ascii_digit())));
}

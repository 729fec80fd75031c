use changelog_manager::update::{is_newer_release, Release};

fn release(tag: &str) -> Release {
    Release {
        tag_name: tag.to_string(),
        html_url: "plop".to_string(),
    }
}

#[test]
fn test_is_newer_release() {
    let cases = [
        ("0.1.0", "0.0.1", true),
        ("0.1.0", "0.1.0", false),
        ("0.1.0", "0.1.1", false),
        ("2.1.3", "1.7.4", true),
        ("2.0.0-alpha", "1.7.4", false),
        ("2.3.4", "2.3.5-alpha.1", false),
        ("1.10.0", "1.10.1", false),
    ];
    for (tag, current, expected) in cases {
        assert_eq!(is_newer_release(&release(tag), current), expected, "{} {}", tag, current);
    }
}

#[test]
fn test_is_valid_semver_version() {
    assert!(!is_newer_release(&release("0.1.0-alpha"), "0.0.1"));
    assert!(!is_newer_release(&release("1.2"), "0.0.1"));
}

#[test]
fn components_too_large_for_u32_never_count() {
    assert!(!is_newer_release(&release("99999999999.0.0"), "1.0.0"));
    assert!(is_newer_release(&release("1.0.4294967295"), "1.0.3"));
}

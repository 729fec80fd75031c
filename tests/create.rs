use changelog_manager::create::{entry_file, entry_file_name};
use changelog_manager::entry::{Builder, Entry, EntryType};
use changelog_manager::git_info::{git_output, GitInfo, GitInfoProvider};

#[test]
fn create_test_create() {
    let branch = "test_create".to_string();
    let entry = Entry::builder()
        .author("username".to_string())
        .title("Some title".to_string())
        .description(Some("A random description".to_string()))
        .category(EntryType::Added)
        .is_breaking_change(Some(false))
        .issue("42".to_string())
        .build()
        .unwrap();
    let file = entry_file(&entry, &branch).unwrap();
    assert_eq!(file.name, "test-create.json");

    let expected_entry = Entry::builder()
        .author("username".to_string())
        .title("Some title".to_string())
        .description(Some("A random description".to_string()))
        .category(EntryType::Added)
        .issue("42".to_string())
        .build()
        .unwrap();
    assert_eq!(Entry::from_json(&file.content).unwrap(), expected_entry);
}

#[test]
fn branch_names_become_slugs() {
    assert_eq!(entry_file_name(&"feature/My Branch!!".to_string()), "feature-my-branch.json");
    assert_eq!(entry_file_name(&"test-branch".to_string()), "test-branch.json");
}

#[test]
fn branches_with_the_same_slug_share_a_file_name() {
    assert_eq!(
        entry_file_name(&"Fix/Login".to_string()),
        entry_file_name(&"fix-login".to_string())
    );
}

#[test]
fn git_info_gives_back_its_parts() {
    let info = GitInfo::new("main".to_string(), "Jane".to_string());
    assert_eq!(info.get_branch(), "main");
    assert_eq!(info.get_username(), "Jane");
}

#[test]
fn test_with_unknown_git_command() {
    assert_eq!(git_output(false, "whatever"), "Unknown");
    assert_eq!(git_output(true, "  main\n"), "main");
}

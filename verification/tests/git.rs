use devpilot::entities::{FileNode, Language};
use devpilot::errors::GitError;
use devpilot::git::{
    branch_label, churn_table, file_node, head_failure, join_path_str, language_of, open_failure,
    repository_name, Git2Reader, GitErrorCode,
};

#[test]
fn clone_destination_uses_last_url_segment() {
    let reader = Git2Reader::new("/tmp/clones".to_string());
    assert_eq!(
        reader.clone_destination("https://github.com/acme/widget.git"),
        "/tmp/clones/widget"
    );
    assert_eq!(
        reader.clone_destination("https://github.com/acme/widget/"),
        "/tmp/clones/widget"
    );
    assert_eq!(reader.clone_destination("/"), "/tmp/clones/repository");
    let trailing = Git2Reader::new("/data/".to_string());
    assert_eq!(trailing.clone_destination("git@host:a/b.git"), "/data/b");
}

#[test]
fn join_path_adds_one_separator() {
    assert_eq!(join_path_str("a", "b"), "a/b");
    assert_eq!(join_path_str("a/", "b"), "a/b");
    assert_eq!(join_path_str("", "b"), "b");
}

#[test]
fn repository_name_is_last_component() {
    assert_eq!(repository_name("/home/me/projects/devpilot"), "devpilot");
    assert_eq!(repository_name("/home/me/projects/devpilot/"), "devpilot");
    assert_eq!(repository_name("/"), "repository");
}

#[test]
fn file_nodes_carry_detected_language() {
    assert_eq!(language_of("src/main.rs"), Language::Rust);
    assert_eq!(language_of("Makefile"), Language::Unknown);
    match file_node("web/app.TSX".to_string(), 42) {
        FileNode::File { path, size_bytes, language } => {
            assert_eq!(path, "web/app.TSX");
            assert_eq!(size_bytes, 42);
            assert_eq!(language, Language::TypeScript);
        }
        FileNode::Directory { .. } => panic!("expected a file"),
    }
}

#[test]
fn branch_label_marks_detached_head() {
    assert_eq!(branch_label(true, Some("main".to_string())), "main");
    assert_eq!(branch_label(true, None), "HEAD");
    assert_eq!(branch_label(false, Some("main".to_string())), "HEAD (detached)");
}

#[test]
fn git_failures_map_to_typed_errors() {
    assert_eq!(head_failure(GitErrorCode::UnbornBranch, "x".to_string()), GitError::EmptyRepository);
    assert_eq!(head_failure(GitErrorCode::NotFound, "x".to_string()), GitError::EmptyRepository);
    assert_eq!(
        head_failure(GitErrorCode::Other, "boom".to_string()),
        GitError::Backend("boom".to_string())
    );
    assert_eq!(
        open_failure(GitErrorCode::NotFound, "/tmp/x".to_string(), "m".to_string()),
        GitError::NotARepository { path: "/tmp/x".to_string() }
    );
    assert_eq!(
        open_failure(GitErrorCode::Other, "/tmp/x".to_string(), "m".to_string()),
        GitError::Backend("m".to_string())
    );
}

#[test]
fn churn_counts_changes_per_file_most_first() {
    let events = vec![
        ("src/lib.rs".to_string(), 300),
        ("README.md".to_string(), 300),
        ("src/lib.rs".to_string(), 200),
        ("src/main.rs".to_string(), 100),
        ("src/lib.rs".to_string(), 100),
        ("README.md".to_string(), 50),
    ];
    let churn = churn_table(&events);
    let rows: Vec<(&str, usize, i64)> = churn
        .iter()
        .map(|c| (c.path.as_str(), c.commit_count, c.last_modified))
        .collect();
    assert_eq!(
        rows,
        vec![("src/lib.rs", 3, 300), ("README.md", 2, 300), ("src/main.rs", 1, 100)]
    );
    let total: usize = churn.iter().map(|c| c.commit_count).sum();
    assert_eq!(total, events.len());
}

#[test]
fn churn_ties_are_ordered_by_path_components() {
    let events = vec![
        ("a.rs".to_string(), 1),
        ("a/b.rs".to_string(), 1),
        ("a-b.rs".to_string(), 1),
    ];
    let churn = churn_table(&events);
    let paths: Vec<&str> = churn.iter().map(|c| c.path.as_str()).collect();
    assert_eq!(paths, vec!["a/b.rs", "a-b.rs", "a.rs"]);
    assert!(churn_table(&[]).is_empty());
}

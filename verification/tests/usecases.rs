use devpilot::chat::RelevantFile;
use devpilot::entities::{
    ChatMessage, CommitHash, CommitInfo, Dependency, Detection, Ecosystem, FileAst, FileNode,
    FileTree, FolderSummary, FunctionDef, ImportDecl, Language, LanguageStat, ProjectMetadata, Role,
};
use devpilot::errors::{
    AnalysisError, CacheError, ChatError, GitError, LlmError, ProjectError, RepoScanError,
    ScanError, StoreError,
};
use devpilot::usecases::{
    chat_context, contributors, file_paths, intelligence_report, latest_question,
    ranked_language_counts, scan_report,
};

fn commit(name: &str, email: &str, summary: &str) -> CommitInfo {
    CommitInfo {
        hash: CommitHash::new(format!("h-{summary}")),
        author_name: name.to_string(),
        author_email: email.to_string(),
        timestamp: 0,
        summary: summary.to_string(),
    }
}

fn file(path: &str, size: u64, language: Language) -> FileNode {
    FileNode::File { path: path.to_string(), size_bytes: size, language }
}

fn tree() -> FileTree {
    FileTree {
        root: FileNode::Directory {
            path: String::new(),
            children: vec![
                file("README.md", 3, Language::Unknown),
                FileNode::Directory {
                    path: "web".to_string(),
                    children: vec![file("web/a.ts", 10, Language::TypeScript)],
                },
                FileNode::Directory {
                    path: "src".to_string(),
                    children: vec![
                        file("src/a.rs", 5, Language::Rust),
                        file("src/b.go", 7, Language::Go),
                    ],
                },
            ],
        },
    }
}

#[test]
fn contributors_group_by_email_most_commits_first() {
    let history = vec![
        commit("Zed", "z@x", "1"),
        commit("Amy", "a@x", "2"),
        commit("Zed Z", "z@x", "3"),
        commit("Bob", "b@x", "4"),
    ];
    let stats = contributors(&history);
    let rows: Vec<(&str, &str, usize)> = stats
        .iter()
        .map(|s| (s.name.as_str(), s.email.as_str(), s.commit_count))
        .collect();
    assert_eq!(rows, vec![("Zed", "z@x", 2), ("Amy", "a@x", 1), ("Bob", "b@x", 1)]);
}

#[test]
fn contributors_are_capped_at_ten() {
    let history: Vec<CommitInfo> = (0..15)
        .map(|i| commit(&format!("dev{i:02}"), &format!("{i}@x"), "c"))
        .collect();
    let stats = contributors(&history);
    assert_eq!(stats.len(), 10);
    assert_eq!(stats[0].name, "dev00");
    assert_eq!(stats[9].name, "dev09");
}

#[test]
fn file_paths_lists_every_file_in_tree_order() {
    assert_eq!(file_paths(&tree()), vec!["README.md", "web/a.ts", "src/a.rs", "src/b.go"]);
}

#[test]
fn latest_question_is_last_user_message() {
    let history = vec![
        ChatMessage::new(Role::User, "first".to_string()),
        ChatMessage::new(Role::User, "second".to_string()),
        ChatMessage::new(Role::Assistant, "answer".to_string()),
    ];
    assert_eq!(latest_question(&history), "second");
    assert_eq!(latest_question(&[]), "");
}

#[test]
fn languages_are_ranked_by_count_then_name() {
    let ranked = ranked_language_counts(&tree());
    assert_eq!(
        ranked,
        vec![
            (Language::Go, 1),
            (Language::Rust, 1),
            (Language::TypeScript, 1),
            (Language::Unknown, 1)
        ]
    );
}

#[test]
fn scan_report_assembles_all_parts() {
    let detection = Detection {
        frameworks: vec![],
        dependencies: vec![Dependency {
            name: "serde".to_string(),
            version: Some("1".to_string()),
            ecosystem: Ecosystem::Cargo,
        }],
    };
    let history = vec![commit("Amy", "a@x", "newest"), commit("Amy", "a@x", "older")];
    let report = scan_report(
        &tree(),
        "main".to_string(),
        CommitHash::new("abc".to_string()),
        2,
        history,
        detection,
    );
    assert_eq!(report.structure.total_files, 4);
    assert_eq!(report.structure.total_directories, 2);
    assert_eq!(report.structure.top_level_dirs, vec!["src", "web"]);
    assert_eq!(report.structure.notable, vec!["src"]);
    assert_eq!(report.git.branch, "main");
    assert_eq!(report.git.commit_count, 2);
    assert_eq!(report.git.last_commit.unwrap().summary, "newest");
    assert_eq!(report.git.contributors[0].commit_count, 2);
    assert_eq!(report.dependencies.len(), 1);
    assert_eq!(report.languages[0], LanguageStat { language: Language::Go, file_count: 1 });
}

#[test]
fn folder_summary_flags_conventional_directories() {
    let summary = FolderSummary::from_tree(&tree());
    assert_eq!(summary.total_files, 4);
    assert_eq!(summary.notable, vec!["src"]);
}

#[test]
fn project_metadata_totals_the_tree() {
    let meta = ProjectMetadata::assemble(
        "demo".to_string(),
        "/tmp/demo".to_string(),
        "main".to_string(),
        CommitHash::new("abc".to_string()),
        7,
        &tree(),
    );
    assert_eq!(meta.file_count, 4);
    assert_eq!(meta.total_size_bytes, 25);
    assert_eq!(meta.commit_count, 7);
    assert_eq!(meta.languages.len(), 4);
}

#[test]
fn chat_context_uses_ranked_languages_and_sorted_dirs() {
    let files = vec![RelevantFile { path: "src/a.rs".to_string(), content: "x".to_string() }];
    let ctx = chat_context("demo".to_string(), "dev".to_string(), &tree(), files.clone());
    assert_eq!(ctx.name, "demo");
    assert_eq!(ctx.branch, "dev");
    assert_eq!(ctx.top_level_dirs, vec!["src", "web"]);
    assert_eq!(ctx.relevant_files, files);
    assert_eq!(ctx.languages.len(), 4);
}

#[test]
fn intelligence_report_combines_detectors() {
    let a = FileAst {
        path: "src/a.rs".to_string(),
        language: Language::Rust,
        functions: vec![FunctionDef {
            name: "lonely".to_string(),
            start_line: 3,
            end_line: 4,
            is_async: false,
            calls: vec![],
        }],
        imports: vec![ImportDecl { source: "crate::b".to_string(), line: 1 }],
        ..FileAst::default()
    };
    let b = FileAst {
        path: "src/b.rs".to_string(),
        language: Language::Rust,
        imports: vec![ImportDecl { source: "crate::a".to_string(), line: 1 }],
        ..FileAst::default()
    };
    let report = intelligence_report(&[a, b], &tree(), &[]);
    assert_eq!(report.cyclic_dependencies.len(), 1);
    assert_eq!(report.cyclic_dependencies[0].nodes, vec!["src/a.rs", "src/b.rs"]);
    assert_eq!(report.dead_code.len(), 1);
    assert_eq!(report.dead_code[0].name, "lonely");
    assert!(report.duplication.is_empty());
}

#[test]
fn every_error_has_a_message() {
    assert_eq!(
        GitError::NotARepository { path: "/x".to_string() }.message(),
        "not a git repository: /x"
    );
    assert_eq!(
        GitError::CloneFailed { url: "u".to_string(), reason: "r".to_string() }.message(),
        "failed to clone u: r"
    );
    assert_eq!(GitError::EmptyRepository.message(), "repository has no commits");
    assert_eq!(
        GitError::FileNotFound { path: "a.rs".to_string() }.message(),
        "file not found in repository: a.rs"
    );
    assert_eq!(GitError::Backend("b".to_string()).message(), "git operation failed: b");
    assert_eq!(CacheError::Backend("c".to_string()).message(), "cache backend error: c");
    assert_eq!(LlmError::AuthFailed.message(), "authentication failed");
    assert_eq!(
        LlmError::RateLimited { retry_after_seconds: Some(3) }.message(),
        "rate limited by the provider"
    );
    assert_eq!(
        LlmError::ContextTooLong.message(),
        "prompt too long for the model's context window"
    );
    assert_eq!(LlmError::Network("n".to_string()).message(), "network error: n");
    assert_eq!(
        ProjectError::Git(GitError::EmptyRepository).message(),
        "repository has no commits"
    );
    assert_eq!(
        ProjectError::Store(StoreError::Backend("s".to_string())).message(),
        "recent projects store error: s"
    );
    assert_eq!(ChatError::Llm(LlmError::AuthFailed).message(), "authentication failed");
    assert_eq!(
        RepoScanError::Scan(ScanError::Backend("x".to_string())).message(),
        "project scan failed: x"
    );
    assert_eq!(
        AnalysisError::UnsupportedLanguage { path: "p".to_string() }.message(),
        "language of p is not supported for AST analysis"
    );
}

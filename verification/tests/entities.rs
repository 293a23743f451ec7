use devpilot::entities::{
    AiSettings, ChatMessage, CommitHash, FileMetrics, FileNode, FileTree, FunctionMetrics,
    Language, ProviderKind, RepositoryId, Role,
};

#[test]
fn detects_known_extensions_case_insensitively() {
    assert_eq!(Language::from_extension("rs"), Language::Rust);
    assert_eq!(Language::from_extension("Py"), Language::Python);
    assert_eq!(Language::from_extension("MJS"), Language::JavaScript);
    assert_eq!(Language::from_extension("go"), Language::Go);
}

#[test]
fn unknown_extension_maps_to_unknown() {
    assert_eq!(Language::from_extension("toml"), Language::Unknown);
    assert_eq!(Language::from_extension(""), Language::Unknown);
}

#[test]
fn every_script_extension_is_recognized() {
    assert_eq!(Language::from_extension("TSX"), Language::TypeScript);
    assert_eq!(Language::from_extension("ts"), Language::TypeScript);
    assert_eq!(Language::from_extension("jsx"), Language::JavaScript);
    assert_eq!(Language::from_extension("cjs"), Language::JavaScript);
    assert_eq!(Language::from_extension("js"), Language::JavaScript);
    assert_eq!(Language::from_extension("rss"), Language::Unknown);
}

#[test]
fn language_names_and_indices_round_trip() {
    for i in 0..6 {
        assert_eq!(Language::at_index(i).index(), i);
    }
    assert_eq!(Language::TypeScript.name(), "TypeScript");
    assert_eq!(Language::Unknown.name(), "Unknown");
}

fn metrics(lines_total: usize, lines_comment: usize) -> FileMetrics {
    FileMetrics {
        lines_total,
        lines_code: lines_total - lines_comment,
        lines_comment,
        functions: vec![],
    }
}

#[test]
fn max_complexity_none_without_functions() {
    assert_eq!(metrics(5, 0).max_complexity(), None);
}

#[test]
fn max_complexity_picks_largest() {
    let mut m = metrics(5, 0);
    m.functions = vec![
        FunctionMetrics {
            name: "a".into(),
            start_line: 1,
            line_count: 2,
            cyclomatic_complexity: 3,
            nesting_depth: 1,
        },
        FunctionMetrics {
            name: "b".into(),
            start_line: 3,
            line_count: 2,
            cyclomatic_complexity: 7,
            nesting_depth: 2,
        },
    ];
    assert_eq!(m.max_complexity(), Some(7));
}

fn file(path: &str) -> FileNode {
    FileNode::File {
        path: path.to_string(),
        size_bytes: 1,
        language: Language::Unknown,
    }
}

#[test]
fn counts_files_recursively() {
    let tree = FileTree {
        root: FileNode::Directory {
            path: String::new(),
            children: vec![
                file("a.rs"),
                FileNode::Directory {
                    path: "src".to_string(),
                    children: vec![file("src/b.rs"), file("src/c.rs")],
                },
            ],
        },
    };
    assert_eq!(tree.file_count(), 3);
}

#[test]
fn empty_directory_has_zero_files() {
    let tree = FileTree {
        root: FileNode::Directory {
            path: String::new(),
            children: vec![],
        },
    };
    assert_eq!(tree.file_count(), 0);
}

fn sized(path: &str, size: u64, language: Language) -> FileNode {
    FileNode::File {
        path: path.to_string(),
        size_bytes: size,
        language,
    }
}

fn sample_tree() -> FileTree {
    FileTree {
        root: FileNode::Directory {
            path: String::new(),
            children: vec![
                sized("main.go", 10, Language::Go),
                FileNode::Directory {
                    path: "src".to_string(),
                    children: vec![
                        sized("src/a.rs", 100, Language::Rust),
                        sized("src/b.rs", 5, Language::Rust),
                        FileNode::Directory {
                            path: "src/empty".to_string(),
                            children: vec![],
                        },
                    ],
                },
            ],
        },
    }
}

#[test]
fn tree_totals_sizes_and_directories() {
    let tree = sample_tree();
    assert_eq!(tree.total_size_bytes(), 115);
    assert_eq!(tree.directory_count(), 2);
    assert_eq!(tree.file_count(), 3);
    assert_eq!(tree.root.path(), "");
}

#[test]
fn language_counts_follow_declaration_order() {
    let tree = sample_tree();
    assert_eq!(
        tree.language_counts(),
        vec![(Language::Rust, 2), (Language::Go, 1)]
    );
}

#[test]
fn identifiers_keep_their_text() {
    let id = RepositoryId::new("repo-1".to_string());
    assert_eq!(id.as_str(), "repo-1");
    assert_eq!(id.to_text(), "repo-1");
    let hash = CommitHash::new("abc123".to_string());
    assert_eq!(hash.as_str(), "abc123");
    assert_eq!(hash.to_text(), "abc123");
}

#[test]
fn chat_message_holds_role_and_content() {
    let m = ChatMessage::new(Role::Assistant, "hi".to_string());
    assert_eq!(m.role, Role::Assistant);
    assert_eq!(m.content, "hi");
    assert_eq!(m.duplicate(), m);
}

#[test]
fn only_ollama_needs_no_api_key() {
    assert!(!ProviderKind::Ollama.needs_api_key());
    assert!(ProviderKind::OpenAI.needs_api_key());
    assert!(ProviderKind::Claude.needs_api_key());
    assert!(ProviderKind::Gemini.needs_api_key());
}

#[test]
fn active_key_picks_the_selected_provider() {
    let mut settings = AiSettings::default();
    assert_eq!(settings.model, "llama3");
    assert_eq!(settings.active_key(), None);
    settings.provider = ProviderKind::Claude;
    settings.api_keys = vec![
        (ProviderKind::OpenAI, "sk-openai".to_string()),
        (ProviderKind::Claude, "sk-ant".to_string()),
    ];
    assert_eq!(settings.active_key(), Some("sk-ant"));
    settings.provider = ProviderKind::Gemini;
    assert_eq!(settings.active_key(), None);
}

#[test]
fn language_counts_add_up_to_file_count() {
    let tree = FileTree {
        root: FileNode::Directory {
            path: String::new(),
            children: vec![
                sized("a.rs", 1, Language::Rust),
                sized("b.txt", 1, Language::Unknown),
                sized("c.py", 1, Language::Python),
                sized("d.rs", 1, Language::Rust),
            ],
        },
    };
    let total: usize = tree.language_counts().iter().map(|(_, n)| n).sum();
    assert_eq!(total, tree.file_count());
    assert!(tree.language_counts().iter().all(|(_, n)| *n > 0));
}

#[test]
fn set_key_replaces_and_keeps_provider_order() {
    let mut settings = AiSettings::default();
    settings.set_key(ProviderKind::Gemini, "g1".to_string());
    settings.set_key(ProviderKind::Claude, "c1".to_string());
    settings.set_key(ProviderKind::Gemini, "g2".to_string());
    let kinds: Vec<ProviderKind> = settings.api_keys.iter().map(|(k, _)| *k).collect();
    assert_eq!(kinds, vec![ProviderKind::Claude, ProviderKind::Gemini]);
    settings.provider = ProviderKind::Gemini;
    assert_eq!(settings.active_key(), Some("g2"));
    settings.provider = ProviderKind::Claude;
    assert_eq!(settings.active_key(), Some("c1"));
}

use devpilot::chat::{build_messages, select_relevant, RelevantFile, RepoContext, DEFAULT_TOKEN_BUDGET};
use devpilot::entities::{ChatMessage, Language, Role};

fn paths() -> Vec<String> {
    vec![
        "src/parser.rs".to_string(),
        "src/lexer.rs".to_string(),
        "README.md".to_string(),
    ]
}

#[test]
fn select_relevant_matches_question_words() {
    let selected = select_relevant(&paths(), "how does the parser work?", 5);
    assert_eq!(selected, vec!["src/parser.rs".to_string()]);
}

#[test]
fn select_relevant_returns_empty_when_no_overlap() {
    assert!(select_relevant(&paths(), "unrelated deployment pipeline", 5).is_empty());
}

#[test]
fn build_messages_starts_with_system_context() {
    let context = RepoContext {
        name: "demo".into(),
        branch: "main".into(),
        languages: vec![(Language::Rust, 3)],
        top_level_dirs: vec!["src".into()],
        relevant_files: vec![RelevantFile {
            path: "src/parser.rs".into(),
            content: "fn parse() {}".into(),
        }],
    };
    let history = vec![ChatMessage::new(Role::User, "what does parser.rs do?".to_string())];
    let messages = build_messages(&context, &history, DEFAULT_TOKEN_BUDGET);

    assert_eq!(messages[0].role, Role::System);
    assert!(messages[0].content.contains("Repository: demo"));
    assert!(messages[0].content.contains("src/parser.rs"));
    assert_eq!(messages.last().unwrap().role, Role::User);
}

#[test]
fn build_messages_keeps_last_message_even_over_budget() {
    let context = RepoContext::default();
    let long = "x".repeat(10_000);
    let history = vec![ChatMessage::new(Role::User, long)];
    // Tiny budget: the last message must still be kept.
    let messages = build_messages(&context, &history, 10);
    assert_eq!(messages.len(), 2);
    assert_eq!(messages[1].role, Role::User);
}

#[test]
fn select_relevant_ranks_by_overlap_and_caps_count() {
    let paths = vec![
        "src/parser/lexer.rs".to_string(),
        "src/parser.rs".to_string(),
        "docs/lexer.md".to_string(),
    ];
    let selected = select_relevant(&paths, "parser lexer", 2);
    assert_eq!(selected, vec!["src/parser/lexer.rs".to_string(), "docs/lexer.md".to_string()]);
    assert!(select_relevant(&paths, "parser lexer", 0).is_empty());
}

#[test]
fn select_relevant_ignores_short_words_and_case() {
    let paths = vec!["src/Auth.rs".to_string(), "src/db.rs".to_string()];
    assert_eq!(select_relevant(&paths, "AUTH in db", 5).len(), 1);
}

#[test]
fn system_prompt_lists_languages_and_directories() {
    let context = RepoContext {
        name: "demo".into(),
        branch: "dev".into(),
        languages: vec![(Language::Rust, 3), (Language::Go, 1)],
        top_level_dirs: vec!["src".into(), "docs".into()],
        relevant_files: vec![],
    };
    let messages = build_messages(&context, &[], DEFAULT_TOKEN_BUDGET);
    assert_eq!(messages.len(), 1);
    let prompt = &messages[0].content;
    assert!(prompt.contains("Repository: demo (branch dev)\n"));
    assert!(prompt.contains("Languages: Rust (3), Go (1)\n"));
    assert!(prompt.contains("Top-level directories: src, docs\n"));
    assert!(!prompt.contains("Relevant files"));
}

#[test]
fn older_messages_are_dropped_when_over_budget() {
    let context = RepoContext::default();
    let history = vec![
        ChatMessage::new(Role::User, "a".repeat(4_000)),
        ChatMessage::new(Role::Assistant, "short answer".to_string()),
        ChatMessage::new(Role::User, "latest question".to_string()),
    ];
    let messages = build_messages(&context, &history, 400);
    assert_eq!(messages.len(), 3);
    assert_eq!(messages[1].content, "short answer");
    assert_eq!(messages[2].content, "latest question");
}

#[test]
fn tokens_are_counted_in_characters() {
    // The default prompt has 186 characters, 46 tokens; 150 tokens are left.
    let context = RepoContext::default();
    let history = vec![
        ChatMessage::new(Role::User, "é".repeat(400)),
        ChatMessage::new(Role::Assistant, "ok".to_string()),
    ];
    let messages = build_messages(&context, &history, 196);
    assert_eq!(messages.len(), 3);
    assert_eq!(messages[1].content, "é".repeat(400));
}

#[test]
fn empty_messages_cost_nothing() {
    let context = RepoContext::default();
    let history = vec![
        ChatMessage::new(Role::User, String::new()),
        ChatMessage::new(Role::Assistant, String::new()),
        ChatMessage::new(Role::User, "latest".to_string()),
    ];
    let messages = build_messages(&context, &history, 46);
    assert_eq!(messages.len(), 4);
}

use devpilot::entities::{
    EdgeKind, ExportDecl, ExportKind, FileAst, FunctionDef, Graph, GraphEdge, GraphNode, Language,
    NodeKind,
};
use devpilot::intel::{find_cycles, find_dead_code, find_duplication, search_code};

fn node(id: &str) -> GraphNode {
    GraphNode {
        id: id.to_string(),
        label: id.to_string(),
        kind: NodeKind::Module,
    }
}

fn edge(from: &str, to: &str, kind: EdgeKind) -> GraphEdge {
    GraphEdge {
        from: from.to_string(),
        to: to.to_string(),
        kind,
    }
}

#[test]
fn find_cycles_detects_a_two_node_cycle() {
    let graph = Graph {
        nodes: vec![node("a"), node("b"), node("c")],
        edges: vec![
            edge("a", "b", EdgeKind::DependsOn),
            edge("b", "a", EdgeKind::DependsOn),
            edge("b", "c", EdgeKind::DependsOn),
        ],
    };
    let cycles = find_cycles(&graph);
    assert_eq!(cycles.len(), 1);
    assert_eq!(cycles[0].nodes, vec!["a".to_string(), "b".to_string()]);
}

#[test]
fn find_cycles_ignores_acyclic_graph() {
    let graph = Graph {
        nodes: vec![node("a"), node("b")],
        edges: vec![edge("a", "b", EdgeKind::DependsOn)],
    };
    assert!(find_cycles(&graph).is_empty());
}

#[test]
fn find_cycles_reports_self_loops_and_sorted_components() {
    let graph = Graph {
        nodes: vec![node("x"), node("c"), node("b"), node("a")],
        edges: vec![
            edge("x", "x", EdgeKind::DependsOn),
            edge("a", "b", EdgeKind::DependsOn),
            edge("b", "c", EdgeKind::DependsOn),
            edge("c", "a", EdgeKind::DependsOn),
        ],
    };
    let cycles = find_cycles(&graph);
    assert_eq!(cycles.len(), 2);
    assert_eq!(
        cycles[0].nodes,
        vec!["c".to_string(), "b".to_string(), "a".to_string()]
    );
    assert_eq!(cycles[1].nodes, vec!["x".to_string()]);
}

fn function(name: &str, line: usize) -> FunctionDef {
    FunctionDef {
        name: name.to_string(),
        start_line: line,
        end_line: line + 1,
        is_async: false,
        calls: vec![],
    }
}

#[test]
fn find_dead_code_flags_uncalled_private_function() {
    let ast = FileAst {
        path: "src/lib.rs".to_string(),
        language: Language::Rust,
        functions: vec![
            function("used", 1),
            function("unused", 5),
            function("main", 9),
        ],
        exports: vec![ExportDecl {
            name: "used".into(),
            kind: ExportKind::Function,
            line: 1,
        }],
        ..FileAst::default()
    };
    let call_graph = Graph {
        nodes: vec![
            node("src/lib.rs::used"),
            node("src/lib.rs::unused"),
            node("src/lib.rs::main"),
        ],
        edges: vec![edge(
            "src/lib.rs::main",
            "src/lib.rs::used",
            EdgeKind::Calls,
        )],
    };

    let dead = find_dead_code(&call_graph, &[ast]);
    // `used` is exported, `main` is an entry point; only `unused` is dead.
    assert_eq!(dead.len(), 1);
    assert_eq!(dead[0].name, "unused");
    assert_eq!(dead[0].line, 5);
}

#[test]
fn dead_code_lists_uncalled_functions_by_line() {
    let ast = FileAst {
        path: "src/a.rs".to_string(),
        language: Language::Rust,
        functions: vec![function("orphan", 7), function("helper", 3), function("test_it", 1)],
        ..FileAst::default()
    };
    let call_graph = Graph {
        nodes: vec![
            node("src/a.rs::orphan"),
            node("src/a.rs::helper"),
            node("src/a.rs::test_it"),
        ],
        edges: vec![
            edge("src/a.rs::orphan", "src/a.rs::helper", EdgeKind::Calls),
            edge("src/a.rs::helper", "src/a.rs::orphan", EdgeKind::Imports),
        ],
    };
    let dead = find_dead_code(&call_graph, &[ast]);
    assert_eq!(dead.len(), 2);
    assert_eq!((dead[0].name.as_str(), dead[0].line), ("test_it", 1));
    assert_eq!((dead[1].name.as_str(), dead[1].line), ("orphan", 7));
    assert_eq!(dead[1].file, "src/a.rs");
}

#[test]
fn functions_outside_the_call_graph_are_not_flagged() {
    let ast = FileAst {
        path: "src/a.rs".to_string(),
        language: Language::Rust,
        functions: vec![function("lonely", 2)],
        ..FileAst::default()
    };
    assert!(find_dead_code(&Graph { nodes: vec![], edges: vec![] }, &[ast]).is_empty());
}

#[test]
fn find_duplication_detects_repeated_block() {
    let block = "let a = 1;\nlet b = 2;\nlet c = 3;\nlet d = 4;\nlet e = 5;\nlet f = 6;\n";
    let files = vec![
        ("a.rs".to_string(), block.to_string()),
        ("b.rs".to_string(), format!("// header\n{block}")),
    ];
    let groups = find_duplication(&files);
    assert!(!groups.is_empty());
    assert_eq!(groups[0].occurrences.len(), 2);
}

#[test]
fn duplication_reports_locations_and_window() {
    let block = "let a = 1;\nlet b = 2;\nlet c = 3;\nlet d = 4;\nlet e = 5;\nlet f = 6;\n";
    let files = vec![
        ("a.rs".to_string(), block.to_string()),
        ("b.rs".to_string(), format!("// header\n{block}")),
    ];
    let groups = find_duplication(&files);
    assert_eq!(groups.len(), 1);
    assert_eq!(groups[0].line_count, 6);
    let loc_a = &groups[0].occurrences[0];
    let loc_b = &groups[0].occurrences[1];
    assert_eq!((loc_a.file.as_str(), loc_a.start_line, loc_a.end_line), ("a.rs", 1, 6));
    assert_eq!((loc_b.file.as_str(), loc_b.start_line, loc_b.end_line), ("b.rs", 2, 7));
}

#[test]
fn short_or_unique_files_have_no_duplication() {
    let files = vec![
        ("a.rs".to_string(), "fn a() {}\n".to_string()),
        ("b.rs".to_string(), "fn a() {}\n".to_string()),
    ];
    assert!(find_duplication(&files).is_empty());
    assert!(find_duplication(&[]).is_empty());
}

#[test]
fn search_code_ranks_symbol_matches() {
    let ast = FileAst {
        path: "src/auth.rs".to_string(),
        language: Language::Rust,
        functions: vec![function("authenticate", 10)],
        ..FileAst::default()
    };
    let hits = search_code("where is authentication", &[ast]);
    assert!(!hits.is_empty());
    assert_eq!(hits[0].symbol.as_deref(), Some("authenticate"));
    assert_eq!(hits[0].line, 10);
}

#[test]
fn search_with_only_short_words_finds_nothing() {
    let ast = FileAst {
        path: "src/a.rs".to_string(),
        language: Language::Rust,
        functions: vec![function("ab", 1)],
        ..FileAst::default()
    };
    assert!(search_code("ab", &[ast]).is_empty());
}

#[test]
fn search_returns_at_most_thirty_hits() {
    let functions: Vec<FunctionDef> = (0..40).map(|i| function(&format!("parse_{i}"), i + 1)).collect();
    let ast = FileAst {
        path: "src/p.rs".to_string(),
        language: Language::Rust,
        functions,
        ..FileAst::default()
    };
    let hits = search_code("parse", &[ast]);
    assert_eq!(hits.len(), 30);
    for pair in hits.windows(2) {
        assert!(pair[0].score >= pair[1].score);
    }
}

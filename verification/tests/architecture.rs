use devpilot::architecture::build;
use devpilot::entities::{
    EdgeKind, FileAst, FileNode, FileTree, FunctionDef, Graph, ImportDecl, Language, NodeKind,
};

fn file(path: &str) -> FileNode {
    FileNode::File {
        path: path.to_string(),
        size_bytes: 1,
        language: Language::Rust,
    }
}

fn dir(path: &str, children: Vec<FileNode>) -> FileNode {
    FileNode::Directory {
        path: path.to_string(),
        children,
    }
}

/// A tree with `src/a.rs` and `lib/b.rs`.
fn tree() -> FileTree {
    FileTree {
        root: dir(
            "",
            vec![
                dir("lib", vec![file("lib/b.rs")]),
                dir("src", vec![file("src/a.rs")]),
            ],
        ),
    }
}

fn function(name: &str, calls: &[&str]) -> FunctionDef {
    FunctionDef {
        name: name.to_string(),
        start_line: 1,
        end_line: 2,
        is_async: false,
        calls: calls.iter().map(|c| c.to_string()).collect(),
    }
}

/// `src/a.rs` imports `b` and its `foo` calls `bar`; `lib/b.rs` defines `bar`.
fn asts() -> Vec<FileAst> {
    vec![
        FileAst {
            path: "src/a.rs".to_string(),
            language: Language::Rust,
            functions: vec![function("foo", &["bar"])],
            imports: vec![ImportDecl {
                source: "crate::b".to_string(),
                line: 1,
            }],
            ..FileAst::default()
        },
        FileAst {
            path: "lib/b.rs".to_string(),
            language: Language::Rust,
            functions: vec![function("bar", &[])],
            ..FileAst::default()
        },
    ]
}

fn has_edge(graph: &Graph, from: &str, to: &str, kind: EdgeKind) -> bool {
    graph
        .edges
        .iter()
        .any(|edge| edge.from == from && edge.to == to && edge.kind == kind)
}

#[test]
fn folder_graph_has_directory_containment() {
    let model = build(&asts(), &tree());
    let ids: Vec<&str> = model
        .folder_graph
        .nodes
        .iter()
        .map(|n| n.id.as_str())
        .collect();
    assert!(ids.contains(&"."));
    assert!(ids.contains(&"src"));
    assert!(ids.contains(&"lib"));
    assert!(has_edge(
        &model.folder_graph,
        ".",
        "src",
        EdgeKind::Contains
    ));
}

#[test]
fn dependency_graph_resolves_import_by_stem() {
    let model = build(&asts(), &tree());
    assert!(has_edge(
        &model.dependency_graph,
        "src/a.rs",
        "lib/b.rs",
        EdgeKind::Imports
    ));
}

#[test]
fn module_graph_aggregates_to_directories() {
    let model = build(&asts(), &tree());
    assert!(has_edge(
        &model.module_graph,
        "src",
        "lib",
        EdgeKind::DependsOn
    ));
}

#[test]
fn call_graph_links_functions_by_name() {
    let model = build(&asts(), &tree());
    assert!(has_edge(
        &model.call_graph,
        "src/a.rs::foo",
        "lib/b.rs::bar",
        EdgeKind::Calls
    ));
}

#[test]
fn unresolved_import_becomes_external() {
    let ast = FileAst {
        path: "src/a.rs".to_string(),
        language: Language::Rust,
        imports: vec![ImportDecl {
            source: "serde".to_string(),
            line: 1,
        }],
        ..FileAst::default()
    };
    let model = build(&[ast], &tree());
    assert!(model
        .dependency_graph
        .nodes
        .iter()
        .any(|n| n.kind == NodeKind::External && n.label == "serde"));
}

#[test]
fn graphs_list_node_ids_sorted_and_unique() {
    let model = build(&asts(), &tree());
    for graph in [
        &model.folder_graph,
        &model.dependency_graph,
        &model.module_graph,
        &model.call_graph,
    ] {
        for pair in graph.nodes.windows(2) {
            assert!(pair[0].id < pair[1].id);
        }
    }
}

#[test]
fn every_edge_joins_known_nodes() {
    let model = build(&asts(), &tree());
    for graph in [
        &model.folder_graph,
        &model.dependency_graph,
        &model.module_graph,
        &model.call_graph,
    ] {
        for edge in &graph.edges {
            assert!(graph.nodes.iter().any(|n| n.id == edge.from));
            assert!(graph.nodes.iter().any(|n| n.id == edge.to));
        }
    }
}

#[test]
fn folder_graph_exact_shape() {
    let model = build(&asts(), &tree());
    let ids: Vec<&str> = model.folder_graph.nodes.iter().map(|n| n.id.as_str()).collect();
    assert_eq!(ids, vec![".", "lib", "src"]);
    assert_eq!(model.folder_graph.edges.len(), 2);
    assert!(has_edge(&model.folder_graph, ".", "lib", EdgeKind::Contains));
    assert!(model.folder_graph.nodes.iter().all(|n| n.kind == NodeKind::Directory));
}

#[test]
fn empty_input_builds_empty_code_graphs() {
    let model = build(&[], &FileTree { root: dir("", vec![]) });
    assert!(model.dependency_graph.nodes.is_empty());
    assert!(model.call_graph.edges.is_empty());
    assert!(model.module_graph.edges.is_empty());
}

#[test]
fn edges_come_sorted_without_duplicates() {
    let mut asts = asts();
    // A second import of the same module and a repeated call add no edge.
    asts[0].imports.push(ImportDecl { source: "lib::b".to_string(), line: 2 });
    asts[0].functions[0].calls.push("bar".to_string());
    let model = build(&asts, &tree());
    for graph in [&model.dependency_graph, &model.call_graph] {
        assert_eq!(graph.edges.len(), 1);
    }
}

#[test]
fn each_graph_has_edges_of_one_kind() {
    let m = build(&asts(), &tree());
    let kinds = [
        (&m.folder_graph, EdgeKind::Contains),
        (&m.dependency_graph, EdgeKind::Imports),
        (&m.module_graph, EdgeKind::DependsOn),
        (&m.call_graph, EdgeKind::Calls),
    ];
    for (graph, kind) in kinds {
        assert!(graph.edges.iter().all(|e| e.kind == kind));
    }
    assert!(!m.module_graph.edges.is_empty());
    assert!(m.module_graph.edges.iter().all(|e| e.from != e.to));
}

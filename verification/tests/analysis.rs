use devpilot::analysis::analyzer::grammar_for;
use devpilot::analysis::TreeSitterAnalyzer;
use devpilot::entities::{ExportKind, Language, SourceFile};
use devpilot::errors::AnalysisError;
use devpilot::ports::CodeAnalyzer;

fn source(path: &str, content: &str) -> SourceFile {
    SourceFile {
        path: path.to_string(),
        content: content.to_string(),
    }
}

const RUST: &str = r#"use std::sync::Arc;

pub struct Foo {
    x: i32,
}

impl Foo {
    pub fn new() -> Self {
        Foo { x: 0 }
    }
    async fn run(&self) {}
}

pub trait Greet {
    fn hi(&self);
}

pub fn top() {}
"#;

const TS: &str = r#"import { useState } from "react";

export interface Props {
    id: number;
}

export class Widget {
    render() {}
    async load() {}
}

export function make(): number {
    return 1;
}

const handler = async () => {};
"#;

#[test]
fn parses_rust_symbols() {
    let analyzer = TreeSitterAnalyzer::new();
    let ast = analyzer
        .parse(&source("src/lib.rs", RUST))
        .expect("parse rust");

    assert_eq!(ast.language, Language::Rust);
    assert_eq!(ast.imports.len(), 1);
    assert_eq!(ast.imports[0].source, "std::sync::Arc");

    // Functions: new, run, top (impl methods count as functions).
    let fn_names: Vec<&str> = ast.functions.iter().map(|f| f.name.as_str()).collect();
    assert!(fn_names.contains(&"new"));
    assert!(fn_names.contains(&"run"));
    assert!(fn_names.contains(&"top"));
    assert!(
        ast.functions
            .iter()
            .find(|f| f.name == "run")
            .unwrap()
            .is_async
    );

    // Struct Foo with its impl methods attached.
    let foo = ast.classes.iter().find(|c| c.name == "Foo").expect("Foo");
    assert!(foo.methods.contains(&"new".to_string()));
    assert!(foo.methods.contains(&"run".to_string()));

    // Trait Greet as an interface.
    assert!(ast.interfaces.iter().any(|i| i.name == "Greet"));

    // Exports: pub items only.
    let exported: Vec<&str> = ast.exports.iter().map(|e| e.name.as_str()).collect();
    assert!(exported.contains(&"Foo"));
    assert!(exported.contains(&"Greet"));
    assert!(exported.contains(&"top"));
    assert!(exported.contains(&"new"));
    // `run` is private, so not exported.
    assert!(!exported.contains(&"run"));
}

#[test]
fn parses_typescript_symbols() {
    let analyzer = TreeSitterAnalyzer::new();
    let ast = analyzer
        .parse(&source("src/App.ts", TS))
        .expect("parse ts");

    assert_eq!(ast.language, Language::TypeScript);
    assert_eq!(ast.imports[0].source, "react");

    assert!(ast.interfaces.iter().any(|i| i.name == "Props"));

    let widget = ast
        .classes
        .iter()
        .find(|c| c.name == "Widget")
        .expect("Widget");
    assert!(widget.methods.contains(&"render".to_string()));
    assert!(widget.methods.contains(&"load".to_string()));

    let fn_names: Vec<&str> = ast.functions.iter().map(|f| f.name.as_str()).collect();
    assert!(fn_names.contains(&"make"));
    assert!(fn_names.contains(&"handler"));
    assert!(
        ast.functions
            .iter()
            .find(|f| f.name == "handler")
            .unwrap()
            .is_async
    );

    // Exports: Props (interface), Widget (class), make (function).
    assert!(ast
        .exports
        .iter()
        .any(|e| e.name == "Widget" && e.kind == ExportKind::Class));
    assert!(ast
        .exports
        .iter()
        .any(|e| e.name == "make" && e.kind == ExportKind::Function));
    assert!(ast
        .exports
        .iter()
        .any(|e| e.name == "Props" && e.kind == ExportKind::Interface));
}

#[test]
fn unsupported_language_is_typed_error() {
    let analyzer = TreeSitterAnalyzer::new();
    let result = analyzer.parse(&source("notes.txt", "hello"));
    assert!(matches!(
        result,
        Err(AnalysisError::UnsupportedLanguage { .. })
    ));
}

#[test]
fn rust_lines_are_one_based() {
    let analyzer = TreeSitterAnalyzer::new();
    let ast = analyzer.parse(&source("src/lib.rs", RUST)).expect("parse rust");
    let top = ast.functions.iter().find(|f| f.name == "top").unwrap();
    assert_eq!(top.start_line, 18);
    assert_eq!(top.end_line, 18);
    let greet = ast.interfaces.iter().find(|i| i.name == "Greet").unwrap();
    assert_eq!(greet.start_line, 14);
    assert_eq!(ast.imports[0].line, 1);
    assert_eq!(ast.path, "src/lib.rs");
}

#[test]
fn javascript_and_python_are_told_apart() {
    let analyzer = TreeSitterAnalyzer::new();
    assert_eq!(analyzer.detect_language("web/app.jsx"), Language::JavaScript);
    assert_eq!(analyzer.detect_language("tool.py"), Language::Python);
    let js = analyzer
        .parse(&source("web/app.js", "export default function main() {}\n"))
        .expect("parse js");
    assert_eq!(js.language, Language::JavaScript);
    assert!(js.functions.iter().any(|f| f.name == "main"));
    let py = analyzer.parse(&source("tool.py", "def f():\n    pass\n"));
    assert_eq!(
        py,
        Err(AnalysisError::UnsupportedLanguage { path: "tool.py".to_string() })
    );
}

#[test]
fn grammar_follows_extension() {
    assert!(grammar_for("a.tsx").is_some());
    assert!(grammar_for("a.rs").is_some());
    assert!(grammar_for("a.go").is_none());
}

#[test]
fn error_messages_name_the_file() {
    let e = AnalysisError::UnsupportedLanguage { path: "a.txt".to_string() };
    assert_eq!(e.message(), "language of a.txt is not supported for AST analysis");
    let e = AnalysisError::ParseFailed { path: "a.rs".to_string(), reason: "no tree".to_string() };
    assert_eq!(e.message(), "failed to parse a.rs: no tree");
    let e = AnalysisError::FileTooLarge { path: "big.rs".to_string(), size_bytes: 2048 };
    assert_eq!(e.message(), "file too large for analysis: big.rs (2048 bytes)");
}

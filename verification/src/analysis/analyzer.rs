//! The tree-sitter analyzer: grammar selection and parsing of one file into
//! its structural model.
use vstd::prelude::*;

use super::ecma::{ecma, ecma_tree};
use super::items::{items_of, Items};
use super::rust::{rust, rust_items};
use super::syntax::{check_rows, parse_tree, parsed, rows_fit, Grammar, ParseOutcome, SyntaxNode};
use crate::entities::ast::AstView;
use crate::entities::{FileAst, Language, SourceFile};
use crate::errors::AnalysisError;
use crate::git::{language_of, language_of_path};
use crate::ports::CodeAnalyzer;
use crate::paths::{extension, extension_str};
use crate::text::{ascii_lowercase, ascii_lowercase_chars, chars_of, eq_lit};

verus! {

/// The grammar for a file extension (ASCII case ignored): JSX and TSX get
/// the grammar variant that understands their syntax.
pub open spec fn grammar_of_extension(ext: Seq<char>) -> Option<Grammar> {
    let e = ascii_lowercase(ext);
    if e == "rs"@ {
        Some(Grammar::Rust)
    } else if e == "ts"@ {
        Some(Grammar::TypeScript)
    } else if e == "tsx"@ {
        Some(Grammar::Tsx)
    } else if e == "js"@ || e == "jsx"@ || e == "mjs"@ || e == "cjs"@ {
        Some(Grammar::JavaScript)
    } else {
        None
    }
}

/// The grammar for a path, from its extension.
pub open spec fn grammar_of(path: Seq<char>) -> Option<Grammar> {
    match extension(path) {
        Some(e) => grammar_of_extension(e),
        None => None,
    }
}

/// Selects a grammar from a file path's extension.
pub fn grammar_for(path: &str) -> (r: Option<Grammar>)
    ensures
        r == grammar_of(path@),
{
    let ext = match extension_str(path) {
        Some(e) => e,
        None => return None,
    };
    let raw = chars_of(&ext);
    let e = ascii_lowercase_chars(&raw);
    if eq_lit(&e, "rs") {
        Some(Grammar::Rust)
    } else if eq_lit(&e, "ts") {
        Some(Grammar::TypeScript)
    } else if eq_lit(&e, "tsx") {
        Some(Grammar::Tsx)
    } else if eq_lit(&e, "js") || eq_lit(&e, "jsx") || eq_lit(&e, "mjs") || eq_lit(&e, "cjs") {
        Some(Grammar::JavaScript)
    } else {
        None
    }
}

/// The symbols a syntax tree of grammar `g` yields.
pub open spec fn tree_items(g: Grammar, root: SyntaxNode) -> Items {
    match g {
        Grammar::Rust => rust_items(root),
        _ => ecma_tree(root),
    }
}

/// The model of a file at `path` parsed as `language` into the syntax tree
/// `root` of grammar `g`.
pub open spec fn ast_of(path: Seq<char>, language: Language, g: Grammar, root: SyntaxNode) -> AstView {
    let it = tree_items(g, root);
    AstView {
        path,
        language,
        functions: it.functions,
        classes: it.classes,
        interfaces: it.interfaces,
        imports: it.imports,
        exports: it.exports,
    }
}

/// The model of a file from its syntax tree.
pub fn ast_from_tree(path: String, language: Language, grammar: Grammar, root: &SyntaxNode) -> (r: FileAst)
    requires
        rows_fit(*root),
    ensures
        r@ == ast_of(path@, language, grammar, *root),
{
    let mut ast = FileAst {
        path,
        language,
        functions: Vec::new(),
        classes: Vec::new(),
        interfaces: Vec::new(),
        imports: Vec::new(),
        exports: Vec::new(),
    };
    let ghost a0 = ast@;
    assert(items_of(a0) =~= super::items::no_items());
    match grammar {
        Grammar::Rust => rust(root, &mut ast),
        _ => ecma(root, &mut ast),
    }
    assert(ast@.functions =~= tree_items(grammar, *root).functions);
    assert(ast@.classes =~= tree_items(grammar, *root).classes);
    assert(ast@.interfaces =~= tree_items(grammar, *root).interfaces);
    assert(ast@.imports =~= tree_items(grammar, *root).imports);
    assert(ast@.exports =~= tree_items(grammar, *root).exports);
    ast
}

/// The outcome of parsing a file at `path` with content `content` as
/// `language`: whether it succeeds with a model, or fails.
pub open spec fn parse_result_ok(path: Seq<char>, content: Seq<char>, language: Language, r: Result<FileAst, AnalysisError>) -> bool {
    match grammar_of(path) {
        None => r matches Err(AnalysisError::UnsupportedLanguage { path: p }) && p@ == path,
        Some(g) => match parsed(g, content) {
            ParseOutcome::LanguageRejected(reason) => r matches Err(
                AnalysisError::ParseFailed { path: p, reason: q },
            ) && p@ == path && q@ == reason@,
            ParseOutcome::NoTree => r matches Err(AnalysisError::ParseFailed { path: p, reason: q })
                && p@ == path && q@ == "parser returned no tree"@,
            ParseOutcome::Tree(root) => if rows_fit(root) {
                r matches Ok(a) && a@ == ast_of(path, language, g, root)
            } else {
                r matches Err(AnalysisError::ParseFailed { path: p, reason: q }) && p@ == path && q@
                    == "line numbers out of range"@
            },
        },
    }
}

/// Parses `file` into its structural model, as `language`.
pub fn parse_file(file: &SourceFile, language: Language) -> (r: Result<FileAst, AnalysisError>)
    ensures
        parse_result_ok(file.path@, file.content@, language, r),
{
    let grammar = match grammar_for(&file.path) {
        Some(g) => g,
        None => return Err(AnalysisError::UnsupportedLanguage { path: file.path.clone() }),
    };
    match parse_tree(grammar, &file.content) {
        ParseOutcome::LanguageRejected(reason) => Err(
            AnalysisError::ParseFailed { path: file.path.clone(), reason },
        ),
        ParseOutcome::NoTree => Err(
            AnalysisError::ParseFailed {
                path: file.path.clone(),
                reason: "parser returned no tree".to_string(),
            },
        ),
        ParseOutcome::Tree(root) => {
            if !check_rows(&root) {
                return Err(
                    AnalysisError::ParseFailed {
                        path: file.path.clone(),
                        reason: "line numbers out of range".to_string(),
                    },
                );
            }
            Ok(ast_from_tree(file.path.clone(), language, grammar, &root))
        },
    }
}

/// A tree-sitter code analyzer.
#[derive(Clone, Copy, Debug)]
pub struct TreeSitterAnalyzer;

impl TreeSitterAnalyzer {
    /// Creates an analyzer.
    pub fn new() -> (r: TreeSitterAnalyzer) {
        TreeSitterAnalyzer
    }
}

impl CodeAnalyzer for TreeSitterAnalyzer {
    /// Parses `file`, as the language its path indicates.
    fn parse(&self, file: &SourceFile) -> (r: Result<FileAst, AnalysisError>)
        ensures
            parse_result_ok(file.path@, file.content@, language_of_path(file.path@), r),
    {
        let language = language_of(&file.path);
        parse_file(file, language)
    }

    /// The language of a path, from its extension.
    fn detect_language(&self, path: &str) -> (r: Language)
        ensures
            r == language_of_path(path@),
    {
        language_of(path)
    }
}

} // verus!

//! Code analysis: tree-sitter parses Rust and TypeScript/JavaScript files;
//! the structural model of each file (functions, classes, interfaces,
//! imports, exports) is read from the syntax tree. Parsing is syntactic
//! only: there is no semantic resolution.

pub mod syntax;
pub mod items;
pub mod rust;
pub mod ecma;
pub mod analyzer;

pub use analyzer::TreeSitterAnalyzer;

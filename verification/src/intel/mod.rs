//! Code-intelligence detectors: pure, deterministic functions over the AST
//! and architecture graphs.
//!
//! - [`find_cycles`] finds dependency cycles (strongly connected components
//!   of two or more nodes, plus self-loops).
//! - [`find_dead_code`] flags functions with no detected callers that are not
//!   exported or entry points. Heuristic: dynamic dispatch, trait methods
//!   and reflection can cause false positives.
//! - [`find_duplication`] finds identical normalized line blocks across files.
//! - [`search_code`] ranks files and symbols by overlap with a query.

pub mod cycles;
pub mod dead_code;
pub mod duplication;
pub mod search;

pub use cycles::find_cycles;
pub use dead_code::find_dead_code;
pub use duplication::find_duplication;
pub use search::search_code;


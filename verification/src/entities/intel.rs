use vstd::prelude::*;

use super::ast::strings_view;

verus! {

/// A dependency cycle: a set of nodes that mutually depend on each other.
#[derive(Clone, PartialEq, Eq, Debug)]
pub struct Cycle {
    /// Node ids forming the cycle, in a deterministic order.
    pub nodes: Vec<String>,
}

/// A function that appears to be unused (best-effort, heuristic).
#[derive(Clone, PartialEq, Eq, Debug)]
pub struct DeadSymbol {
    /// Function name.
    pub name: String,
    /// File the function is defined in.
    pub file: String,
    /// 1-based line the function starts on.
    pub line: usize,
}

/// One location of a duplicated block.
#[derive(Clone, PartialEq, Eq, Debug)]
pub struct DuplicationLocation {
    /// File containing the block.
    pub file: String,
    /// 1-based first line of the block.
    pub start_line: usize,
    /// 1-based last line of the block.
    pub end_line: usize,
}

/// A group of identical code blocks found in two or more places.
#[derive(Clone, PartialEq, Eq, Debug)]
pub struct DuplicationGroup {
    /// Number of (normalized) lines in the block.
    pub line_count: usize,
    /// Where the block occurs.
    pub occurrences: Vec<DuplicationLocation>,
}

/// A code-search result.
#[derive(Clone, PartialEq, Eq, Debug)]
pub struct SearchHit {
    /// File the hit is in.
    pub path: String,
    /// Matching symbol name, when the hit is a symbol rather than a path.
    pub symbol: Option<String>,
    /// 1-based line of the hit (the symbol's line, or 1 for a path hit).
    pub line: usize,
    /// Relevance score; higher is better.
    pub score: usize,
}

/// The deterministic code-intelligence report for a repository.
///
/// All findings are computed from the AST and architecture graphs; the dead
/// code and duplication detectors are heuristic and may have false positives.
#[derive(Clone, PartialEq, Eq, Debug)]
pub struct CodeIntelligenceReport {
    /// Dependency cycles between modules/files.
    pub cyclic_dependencies: Vec<Cycle>,
    /// Functions with no detected callers.
    pub dead_code: Vec<DeadSymbol>,
    /// Groups of duplicated code blocks.
    pub duplication: Vec<DuplicationGroup>,
}

/// Abstract view of a [`DeadSymbol`].
pub struct DeadView {
    pub name: Seq<char>,
    pub file: Seq<char>,
    pub line: usize,
}

/// Abstract view of a [`DuplicationLocation`].
pub struct LocationView {
    pub file: Seq<char>,
    pub start_line: usize,
    pub end_line: usize,
}

/// Abstract view of a [`DuplicationGroup`].
pub struct GroupView {
    pub line_count: usize,
    pub occurrences: Seq<LocationView>,
}

/// Abstract view of a [`SearchHit`].
pub struct HitView {
    pub path: Seq<char>,
    pub symbol: Option<Seq<char>>,
    pub line: usize,
    pub score: usize,
}

impl View for Cycle {
    type V = Seq<Seq<char>>;

    open spec fn view(&self) -> Seq<Seq<char>> {
        strings_view(self.nodes@)
    }
}

impl View for DeadSymbol {
    type V = DeadView;

    open spec fn view(&self) -> DeadView {
        DeadView { name: self.name@, file: self.file@, line: self.line }
    }
}

impl View for DuplicationLocation {
    type V = LocationView;

    open spec fn view(&self) -> LocationView {
        LocationView { file: self.file@, start_line: self.start_line, end_line: self.end_line }
    }
}

impl View for DuplicationGroup {
    type V = GroupView;

    open spec fn view(&self) -> GroupView {
        GroupView {
            line_count: self.line_count,
            occurrences: self.occurrences@.map_values(|l: DuplicationLocation| l@),
        }
    }
}

impl View for SearchHit {
    type V = HitView;

    open spec fn view(&self) -> HitView {
        HitView {
            path: self.path@,
            symbol: match self.symbol {
                Some(s) => Some(s@),
                None => None,
            },
            line: self.line,
            score: self.score,
        }
    }
}

impl Default for CodeIntelligenceReport {
    /// A report with no findings.
    fn default() -> (r: CodeIntelligenceReport)
        ensures
            r.cyclic_dependencies@.len() == 0,
            r.dead_code@.len() == 0,
            r.duplication@.len() == 0,
    {
        CodeIntelligenceReport {
            cyclic_dependencies: Vec::new(),
            dead_code: Vec::new(),
            duplication: Vec::new(),
        }
    }
}

} // verus!

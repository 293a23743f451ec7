//! Domain types of DevPilot.
//!
//! Entities are plain data with small, self-explanatory helper methods.
//! They contain no I/O and no framework types.

pub mod analysis;
pub mod ast;
pub mod graph;
pub mod history;
pub mod intel;
pub mod language;
pub mod llm;
pub mod metadata;
pub mod metrics;
pub mod project;
pub mod repository;
pub mod scan;
pub mod settings;
pub mod tree;

pub use analysis::{
    AnalysisProgress, AnalysisResult, Diagnostic, DiagnosticSeverity, FileAnalysis, SourceFile,
};
pub use ast::{ClassDef, ExportDecl, ExportKind, FileAst, FunctionDef, ImportDecl, InterfaceDef};
pub use graph::{ArchitectureModel, EdgeKind, Graph, GraphEdge, GraphNode, NodeKind};
pub use intel::{
    CodeIntelligenceReport, Cycle, DeadSymbol, DuplicationGroup, DuplicationLocation, SearchHit,
};
pub use history::{AuthorStats, CommitHash, CommitInfo, FileChurn};
pub use language::Language;
pub use llm::{ChatMessage, ModelInfo, Role};
pub use metadata::{LanguageStat, ProjectMetadata};
pub use metrics::{FileMetrics, FunctionMetrics};
pub use project::RecentProject;
pub use repository::{Repository, RepositoryId, RepositorySource};
pub use scan::{
    Dependency, Detection, Ecosystem, FolderSummary, Framework, FrameworkCategory, GitSummary,
    ScanReport,
};
pub use settings::{AiSettings, ProviderKind};
pub use tree::{FileNode, FileTree};

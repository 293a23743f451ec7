//! Ports: the services the use cases need, which adapters implement.
//!
//! The application implements them with libgit2, the filesystem and the
//! tree-sitter analyzer; the use cases call them and decide what follows.
//! The ports promise nothing about what they return: the use cases state
//! what holds whatever comes back.
use vstd::prelude::*;

use crate::entities::{
    AiSettings, AnalysisProgress, AnalysisResult, CommitHash, CommitInfo, Detection, FileAst,
    FileChurn, FileTree, Language, RecentProject, Repository, RepositoryId, RepositorySource,
    SourceFile,
};
use crate::errors::{AnalysisError, CacheError, GitError, ScanError, StoreError};

verus! {

/// Read access to git repositories.
pub trait GitReader {
    /// Opens a repository (cloning it first when remote).
    fn open(&self, source: &RepositorySource) -> Result<Repository, GitError>;

    /// The file tree at HEAD.
    fn file_tree(&self, repository: &Repository) -> Result<FileTree, GitError>;

    /// Up to `limit` commits reachable from HEAD, newest first.
    fn history(&self, repository: &Repository, limit: usize) -> Result<Vec<CommitInfo>, GitError>;

    /// Per-file change counts across the whole history.
    fn churn(&self, repository: &Repository) -> Result<Vec<FileChurn>, GitError>;

    /// The content of a file at HEAD, by its path relative to the root.
    fn read_file(&self, repository: &Repository, path: &str) -> Result<String, GitError>;

    /// The short name of the current branch.
    fn current_branch(&self, repository: &Repository) -> Result<String, GitError>;

    /// The number of commits reachable from HEAD.
    fn commit_count(&self, repository: &Repository) -> Result<usize, GitError>;
}

/// Parses source files into their structural model.
pub trait CodeAnalyzer {
    /// Parses one file.
    fn parse(&self, file: &SourceFile) -> Result<FileAst, AnalysisError>;

    /// The language of a path, `Unknown` when the analyzer cannot parse it.
    fn detect_language(&self, path: &str) -> Language;
}

/// Stores analysis results by repository and commit.
pub trait AnalysisCache {
    /// The stored result for a repository at a commit, if any.
    fn get(&self, repository: &RepositoryId, commit: &CommitHash) -> Result<Option<AnalysisResult>, CacheError>;

    /// Stores a result.
    fn put(&self, result: &AnalysisResult) -> Result<(), CacheError>;
}

/// Persists the list of recently opened projects.
pub trait RecentProjectsStore {
    /// The projects, most recently opened first.
    fn list(&self) -> Result<Vec<RecentProject>, StoreError>;

    /// Records a project as just opened.
    fn add(&self, project: &RecentProject) -> Result<(), StoreError>;

    /// Forgets a project.
    fn remove(&self, id: &RepositoryId) -> Result<(), StoreError>;
}

/// Detects frameworks and dependencies of a repository's working copy.
pub trait ProjectScanner {
    /// What the manifests of the repository declare.
    fn detect(&self, repository: &Repository) -> Result<Detection, ScanError>;
}

/// Persists the AI settings.
pub trait SettingsStore {
    /// The stored settings.
    fn load(&self) -> Result<AiSettings, StoreError>;

    /// Stores the settings.
    fn save(&self, settings: &AiSettings) -> Result<(), StoreError>;
}

/// Receives progress events of a running analysis. Implementations must be
/// cheap and non-blocking; they are called from the analysis loop.
pub trait ProgressReporter {
    /// Reports one progress event.
    fn report(&self, progress: AnalysisProgress);
}

} // verus!

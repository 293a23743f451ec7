//! Typed errors of the DevPilot domain, one enum per port.
//!
//! Each error has a `message` for developers; the UI layer maps errors to
//! user-facing text.
use vstd::prelude::*;

use crate::text::{concat, decimal, decimal_string};

verus! {

/// `a` followed by `b`, as a string.
fn join2(a: &str, b: &str) -> (r: String)
    ensures
        r@ == a@ + b@,
{
    concat(a, b)
}

/// `a`, `b` and `c` in a row, as a string.
fn join3(a: &str, b: &str, c: &str) -> (r: String)
    ensures
        r@ == a@ + b@ + c@,
{
    let ab = concat(a, b);
    concat(&ab, c)
}

/// Errors produced by git readers.
#[derive(Clone, PartialEq, Eq, Debug)]
pub enum GitError {
    /// The given path exists but is not a git repository.
    NotARepository {
        /// Path that was checked.
        path: String,
    },
    /// Cloning a remote repository failed.
    CloneFailed {
        /// Remote URL that was requested.
        url: String,
        /// Backend-provided reason.
        reason: String,
    },
    /// The repository contains no commits, so there is nothing to analyze.
    EmptyRepository,
    /// A requested file does not exist at the repository's HEAD.
    FileNotFound {
        /// Path that was requested, relative to the repository root.
        path: String,
    },
    /// Any other backend failure (I/O, libgit2, permissions).
    Backend(String),
}

/// The message of a git error.
pub open spec fn git_message(e: GitError) -> Seq<char> {
    match e {
        GitError::NotARepository { path } => "not a git repository: "@ + path@,
        GitError::CloneFailed { url, reason } => "failed to clone "@ + url@ + ": "@ + reason@,
        GitError::EmptyRepository => "repository has no commits"@,
        GitError::FileNotFound { path } => "file not found in repository: "@ + path@,
        GitError::Backend(m) => "git operation failed: "@ + m@,
    }
}

impl GitError {
    /// Human-readable description of the error.
    pub fn message(&self) -> (r: String)
        ensures
            r@ == git_message(*self),
    {
        match self {
            GitError::NotARepository { path } => join2("not a git repository: ", path),
            GitError::CloneFailed { url, reason } => {
                let head = join3("failed to clone ", url, ": ");
                join2(&head, reason)
            },
            GitError::EmptyRepository => "repository has no commits".to_string(),
            GitError::FileNotFound { path } => join2("file not found in repository: ", path),
            GitError::Backend(m) => join2("git operation failed: ", m),
        }
    }
}

/// Errors produced by code analyzers. These are per-file errors: callers
/// convert them into diagnostics and continue with the rest of the
/// repository.
#[derive(Clone, PartialEq, Eq, Debug)]
pub enum AnalysisError {
    /// The file's language has no AST support.
    UnsupportedLanguage {
        /// File that was skipped.
        path: String,
    },
    /// The parser could not process the file.
    ParseFailed {
        /// File that failed to parse.
        path: String,
        /// Parser-provided reason.
        reason: String,
    },
    /// The file exceeds the analyzer's size limit and was skipped.
    FileTooLarge {
        /// File that was skipped.
        path: String,
        /// Actual size of the file.
        size_bytes: u64,
    },
}

/// The message of an analysis error.
pub open spec fn analysis_message(e: AnalysisError) -> Seq<char> {
    match e {
        AnalysisError::UnsupportedLanguage { path } => "language of "@ + path@
            + " is not supported for AST analysis"@,
        AnalysisError::ParseFailed { path, reason } => "failed to parse "@ + path@ + ": "@
            + reason@,
        AnalysisError::FileTooLarge { path, size_bytes } => "file too large for analysis: "@
            + path@ + " ("@ + decimal(size_bytes as nat) + " bytes)"@,
    }
}

impl AnalysisError {
    /// Human-readable description of the error.
    pub fn message(&self) -> (r: String)
        ensures
            r@ == analysis_message(*self),
    {
        match self {
            AnalysisError::UnsupportedLanguage { path } => join3(
                "language of ",
                path,
                " is not supported for AST analysis",
            ),
            AnalysisError::ParseFailed { path, reason } => {
                let head = join3("failed to parse ", path, ": ");
                join2(&head, reason)
            },
            AnalysisError::FileTooLarge { path, size_bytes } => {
                let head = join3("file too large for analysis: ", path, " (");
                let n = decimal_string(*size_bytes);
                join3(&head, &n, " bytes)")
            },
        }
    }
}

/// Errors produced by analysis caches.
#[derive(Clone, PartialEq, Eq, Debug)]
pub enum CacheError {
    /// Any backend failure (I/O, database, serialization).
    Backend(String),
}

impl CacheError {
    /// Human-readable description of the error.
    pub fn message(&self) -> (r: String)
        ensures
            r@ == "cache backend error: "@ + (match self {
                CacheError::Backend(m) => m@,
            }),
    {
        match self {
            CacheError::Backend(m) => join2("cache backend error: ", m),
        }
    }
}

/// Errors produced by the stores of recent projects and settings.
#[derive(Clone, PartialEq, Eq, Debug)]
pub enum StoreError {
    /// Any backend failure (I/O, serialization).
    Backend(String),
}

impl StoreError {
    /// Human-readable description of the error.
    pub fn message(&self) -> (r: String)
        ensures
            r@ == "recent projects store error: "@ + (match self {
                StoreError::Backend(m) => m@,
            }),
    {
        match self {
            StoreError::Backend(m) => join2("recent projects store error: ", m),
        }
    }
}

/// Errors produced by project scanners.
#[derive(Clone, PartialEq, Eq, Debug)]
pub enum ScanError {
    /// Any backend failure (I/O while reading manifests).
    Backend(String),
}

impl ScanError {
    /// Human-readable description of the error.
    pub fn message(&self) -> (r: String)
        ensures
            r@ == "project scan failed: "@ + (match self {
                ScanError::Backend(m) => m@,
            }),
    {
        match self {
            ScanError::Backend(m) => join2("project scan failed: ", m),
        }
    }
}

/// Errors produced by LLM providers.
#[derive(Clone, PartialEq, Eq, Debug)]
pub enum LlmError {
    /// The API key was rejected.
    AuthFailed,
    /// The provider throttled the request.
    RateLimited {
        /// Seconds to wait before retrying, when the provider said.
        retry_after_seconds: Option<u64>,
    },
    /// The prompt does not fit the model's context window.
    ContextTooLong,
    /// The provider could not be reached.
    Network(String),
    /// Any other provider failure.
    Backend(String),
}

/// The message of an LLM error.
pub open spec fn llm_message(e: LlmError) -> Seq<char> {
    match e {
        LlmError::AuthFailed => "authentication failed"@,
        LlmError::RateLimited { .. } => "rate limited by the provider"@,
        LlmError::ContextTooLong => "prompt too long for the model's context window"@,
        LlmError::Network(m) => "network error: "@ + m@,
        LlmError::Backend(m) => "provider error: "@ + m@,
    }
}

impl LlmError {
    /// Human-readable description of the error.
    pub fn message(&self) -> (r: String)
        ensures
            r@ == llm_message(*self),
    {
        match self {
            LlmError::AuthFailed => "authentication failed".to_string(),
            LlmError::RateLimited { .. } => "rate limited by the provider".to_string(),
            LlmError::ContextTooLong => "prompt too long for the model's context window".to_string(),
            LlmError::Network(m) => join2("network error: ", m),
            LlmError::Backend(m) => join2("provider error: ", m),
        }
    }
}

/// Errors of the project use cases, aggregating the ports they depend on.
#[derive(Clone, PartialEq, Eq, Debug)]
pub enum ProjectError {
    /// A git operation failed.
    Git(GitError),
    /// Persisting the recent-projects list failed.
    Store(StoreError),
}

impl ProjectError {
    /// Human-readable description: that of the underlying error.
    pub fn message(&self) -> (r: String)
        ensures
            match self {
                ProjectError::Git(e) => r@ == git_message(*e),
                ProjectError::Store(e) => r@ == "recent projects store error: "@ + (match e {
                    StoreError::Backend(m) => m@,
                }),
            },
    {
        match self {
            ProjectError::Git(e) => e.message(),
            ProjectError::Store(e) => e.message(),
        }
    }
}

/// Errors of the repository chat use case.
#[derive(Clone, PartialEq, Eq, Debug)]
pub enum ChatError {
    /// Reading the repository failed.
    Git(GitError),
    /// The model provider failed.
    Llm(LlmError),
}

impl ChatError {
    /// Human-readable description: that of the underlying error.
    pub fn message(&self) -> (r: String)
        ensures
            match self {
                ChatError::Git(e) => r@ == git_message(*e),
                ChatError::Llm(e) => r@ == llm_message(*e),
            },
    {
        match self {
            ChatError::Git(e) => e.message(),
            ChatError::Llm(e) => e.message(),
        }
    }
}

/// Errors of the repository scan use case.
#[derive(Clone, PartialEq, Eq, Debug)]
pub enum RepoScanError {
    /// Reading the repository failed.
    Git(GitError),
    /// Detecting frameworks and dependencies failed.
    Scan(ScanError),
}

impl RepoScanError {
    /// Human-readable description: that of the underlying error.
    pub fn message(&self) -> (r: String)
        ensures
            match self {
                RepoScanError::Git(e) => r@ == git_message(*e),
                RepoScanError::Scan(e) => r@ == "project scan failed: "@ + (match e {
                    ScanError::Backend(m) => m@,
                }),
            },
    {
        match self {
            RepoScanError::Git(e) => e.message(),
            RepoScanError::Scan(e) => e.message(),
        }
    }
}

} // verus!

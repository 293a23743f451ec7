use vstd::prelude::*;

use super::history::CommitHash;

verus! {

/// Unique identifier of a repository within DevPilot.
///
/// Produced by the git adapter from the repository source (for example a
/// normalized URL or an absolute path) and used as a cache key together
/// with [`CommitHash`].
#[derive(Clone, PartialEq, Eq, Debug, Hash)]
pub struct RepositoryId(pub String);

impl RepositoryId {
    /// Creates an identifier from a string.
    pub fn new(value: String) -> (r: RepositoryId)
        ensures
            r.0@ == value@,
    {
        RepositoryId(value)
    }

    /// Returns the identifier as a string slice.
    pub fn as_str(&self) -> (r: &str)
        ensures
            r@ == self.0@,
    {
        self.0.as_str()
    }

    /// The identifier as text (what `Display` shows).
    pub fn to_text(&self) -> (r: String)
        ensures
            r@ == self.0@,
    {
        self.0.clone()
    }
}

/// Where a repository comes from.
#[derive(Clone, PartialEq, Eq, Debug)]
pub enum RepositorySource {
    /// A repository that already exists on the local filesystem.
    LocalPath(String),
    /// A remote repository to clone, for example a GitHub URL.
    RemoteUrl(String),
}

/// A repository that has been opened and is ready for analysis.
#[derive(Clone, PartialEq, Eq, Debug)]
pub struct Repository {
    /// Stable identifier used for caching and cross-referencing.
    pub id: RepositoryId,
    /// Human-readable name, usually the project directory name.
    pub name: String,
    /// Location of the working copy on the local filesystem.
    pub local_path: String,
    /// Commit the analysis operates on (HEAD at the time of opening).
    pub head: CommitHash,
}

} // verus!

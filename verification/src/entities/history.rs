use vstd::prelude::*;

verus! {

/// Full hash of a git commit.
#[derive(Clone, PartialEq, Eq, Debug, Hash)]
pub struct CommitHash(pub String);

impl CommitHash {
    /// Creates a hash from a string.
    pub fn new(value: String) -> (r: CommitHash)
        ensures
            r.0@ == value@,
    {
        CommitHash(value)
    }

    /// Returns the hash as a string slice.
    pub fn as_str(&self) -> (r: &str)
        ensures
            r@ == self.0@,
    {
        self.0.as_str()
    }

    /// The hash as text (what `Display` shows).
    pub fn to_text(&self) -> (r: String)
        ensures
            r@ == self.0@,
    {
        self.0.clone()
    }
}

/// One commit in the repository history.
#[derive(Clone, PartialEq, Eq, Debug)]
pub struct CommitInfo {
    /// Full commit hash.
    pub hash: CommitHash,
    /// Author name as recorded in the commit.
    pub author_name: String,
    /// Author email as recorded in the commit.
    pub author_email: String,
    /// Commit time as Unix seconds (UTC).
    pub timestamp: i64,
    /// First line of the commit message.
    pub summary: String,
}

/// Contribution statistics of one author.
#[derive(Clone, PartialEq, Eq, Debug)]
pub struct AuthorStats {
    /// Author name.
    pub name: String,
    /// Author email; authors are aggregated by email.
    pub email: String,
    /// Number of commits by this author.
    pub commit_count: usize,
}

/// Change frequency of one file across the repository history.
///
/// High churn combined with high complexity marks a maintenance hotspot.
#[derive(Clone, PartialEq, Eq, Debug)]
pub struct FileChurn {
    /// `/`-separated path relative to the repository root.
    pub path: String,
    /// Number of commits that touched the file.
    pub commit_count: usize,
    /// Unix seconds (UTC) of the most recent change.
    pub last_modified: i64,
}

/// Abstract view of an [`AuthorStats`].
pub struct AuthorView {
    pub name: Seq<char>,
    pub email: Seq<char>,
    pub commit_count: usize,
}

impl View for AuthorStats {
    type V = AuthorView;

    open spec fn view(&self) -> AuthorView {
        AuthorView { name: self.name@, email: self.email@, commit_count: self.commit_count }
    }
}

/// Abstract view of a [`FileChurn`].
pub struct ChurnView {
    pub path: Seq<char>,
    pub commit_count: usize,
    pub last_modified: i64,
}

impl View for FileChurn {
    type V = ChurnView;

    open spec fn view(&self) -> ChurnView {
        ChurnView {
            path: self.path@,
            commit_count: self.commit_count,
            last_modified: self.last_modified,
        }
    }
}

} // verus!

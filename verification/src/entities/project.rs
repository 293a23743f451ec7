use vstd::prelude::*;

use super::repository::{RepositoryId, RepositorySource};

verus! {

/// An entry in the "recent projects" list.
///
/// Persisted by the recent-projects store so a user can reopen a project
/// with one click. `last_opened` is stamped by the store on insert, so the
/// domain never needs a clock to record it.
#[derive(Clone, PartialEq, Eq, Debug)]
pub struct RecentProject {
    /// Stable identifier, shared with [`RepositoryId`].
    pub id: RepositoryId,
    /// Display name of the project.
    pub name: String,
    /// Where the project came from (local folder or remote clone).
    pub source: RepositorySource,
    /// Absolute path of the working copy on disk.
    pub local_path: String,
    /// Unix seconds (UTC) of the last time the project was opened.
    pub last_opened: i64,
}

} // verus!

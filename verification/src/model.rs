//! Data shared with the user interface: branches, working-tree status and summaries.

use vstd::prelude::*;

verus! {

/// A local or remote branch reference.
pub struct BranchInfo {
    pub name: String,
    pub is_head: bool,
    pub is_remote: bool,
    /// Hex id the branch points at, if resolvable.
    pub target: Option<String>,
}

/// Working-tree status for a single path.
pub struct FileStatus {
    pub path: String,
    /// One of: `new`, `modified`, `deleted`, `renamed`, `typechange`, `conflicted`,
    /// `ignored`, `unmodified`.
    pub status: String,
    pub staged: bool,
}

/// Aggregate working-tree and HEAD status of a repository.
pub struct RepoStatus {
    pub head_branch: Option<String>,
    pub files: Vec<FileStatus>,
    /// Commits the HEAD branch is ahead of / behind its upstream (0 without one).
    pub ahead: u32,
    pub behind: u32,
    pub has_conflicts: bool,
}

/// Lightweight summary returned when a repository is opened.
pub struct RepoSummary {
    pub path: String,
    pub head_branch: Option<String>,
    pub commit_count: u32,
    pub branch_count: u32,
}

} // verus!

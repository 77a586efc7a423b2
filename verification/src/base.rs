//! The base branch: the upstream reference every virtual branch is
//! diffed and rebased against.

use vstd::prelude::*;

use crate::hunks::Hunk;

verus! {

/// The tracked upstream reference for a project.
pub struct BaseBranch {
    /// Name of the upstream ref, e.g. a remote branch name.
    pub remote_name: String,
    /// Tip commit of the upstream ref as last recorded.
    pub tip: u64,
    /// The commit the project's work forked from.
    pub fork_point: u64,
    /// Commits the local base has that the recorded tip does not.
    pub ahead: u64,
    /// Commits the recorded tip has that the local base does not.
    pub behind: u64,
    /// Regions the upstream changed since the branches' work was laid
    /// down; a branch whose claims overlap these cannot be combined
    /// cleanly and is flagged conflicted when (re)applied.
    pub drift: Vec<Hunk>,
}

/// What the object store reports when a base branch is first resolved:
/// the tip and fork point of the chosen upstream ref, the ahead/behind
/// counts against it, and the full current uncommitted diff against that
/// tip.
pub struct BaseTarget {
    /// Name of the chosen upstream ref.
    pub remote_name: String,
    /// Tip commit of the upstream ref.
    pub tip: u64,
    /// Fork point of the project's work.
    pub fork_point: u64,
    /// Commits the local base is ahead of the tip.
    pub ahead: u64,
    /// Commits the local base is behind the tip.
    pub behind: u64,
    /// The uncommitted diff of the working directory against `tip`.
    pub diff: Vec<Hunk>,
}

/// What a fetch of the tracked upstream ref reports: the tip it sits at
/// now, fresh ahead/behind counts, and the regions it changed relative
/// to the previously recorded tip.
pub struct BaseUpdate {
    /// Tip the upstream ref sits at after the fetch.
    pub tip: u64,
    /// Commits the local base is ahead of that tip.
    pub ahead: u64,
    /// Commits the local base is behind that tip.
    pub behind: u64,
    /// Regions changed between the recorded tip and the fetched tip.
    pub drift: Vec<Hunk>,
}

/// A read-only copy of the base branch record, as handed to callers of
/// `get_base_branch_data`.
#[derive(Debug)]
pub struct BaseData {
    /// Copy of the upstream ref name.
    pub remote_name: String,
    /// Recorded tip commit.
    pub tip: u64,
    /// Recorded fork point.
    pub fork_point: u64,
    /// Recorded ahead count.
    pub ahead: u64,
    /// Recorded behind count.
    pub behind: u64,
    /// Recorded upstream drift regions.
    pub drift: Vec<Hunk>,
}

} // verus!

//! Virtual branch records and the request descriptors that mutate them.

use vstd::prelude::*;

use crate::hunks::Hunk;

verus! {

/// One virtual branch: a named, independently committable subset of the
/// working directory's uncommitted changes.
pub struct VirtualBranch {
    /// Stable identity, unique within the project.
    pub id: u64,
    /// Display name; non-empty and unique within the project.
    pub name: String,
    /// Ordering rank among the project's branches; unique, and lower
    /// ranks win contested ownership claims.
    pub rank: u64,
    /// Whether the branch's owned hunks are materialized in the working
    /// directory.
    pub applied: bool,
    /// Whether the owned hunks could not be cleanly combined with the
    /// current base; durable state, cleared by unapplying.
    pub conflicted: bool,
    /// The commit the branch currently points at.
    pub head: u64,
    /// Tip held by the remote tracking ref, if the ref exists yet.
    pub remote_head: Option<u64>,
    /// Commits on `head` that the remote tracking ref does not have.
    pub unpushed: u64,
    /// The hunks this branch owns, disjoint from every other claim in
    /// the project.
    pub ownership: Vec<Hunk>,
}

impl VirtualBranch {
    /// Everything but the ownership list agrees between the two records.
    pub open spec fn same_meta(self, other: VirtualBranch) -> bool {
        &&& self.id == other.id
        &&& self.name == other.name
        &&& self.rank == other.rank
        &&& self.applied == other.applied
        &&& self.conflicted == other.conflicted
        &&& self.head == other.head
        &&& self.remote_head == other.remote_head
        &&& self.unpushed == other.unpushed
    }
}

/// Input descriptor for creating a branch; consumed once.
pub struct BranchCreateRequest {
    /// Display name for the new branch; must be non-empty and unused.
    pub name: String,
}

/// Input descriptor for updating a branch; consumed once.  Fields left
/// `None` keep their current value.
pub struct BranchUpdateRequest {
    /// The branch to update.
    pub branch_id: u64,
    /// New display name, if any; must be non-empty and unused by others.
    pub name: Option<String>,
    /// New ordering rank, if any; must be unused by others.
    pub order: Option<u64>,
    /// Full replacement ownership claim list, if any.  Every entry must
    /// be a hunk the branch already owns or an unclaimed hunk.
    pub ownership: Option<Vec<Hunk>>,
}

/// A read-only row describing one branch, as handed to callers of
/// `list_virtual_branches`.
pub struct BranchListing {
    /// Stable identity of the branch.
    pub id: u64,
    /// Copy of the display name.
    pub name: String,
    /// Ordering rank; listings come sorted by this, ascending.
    pub rank: u64,
    /// Whether the branch is applied.
    pub applied: bool,
    /// Whether the branch is conflicted.
    pub conflicted: bool,
    /// The branch's current head commit.
    pub head: u64,
    /// The hunks the branch owns.
    pub ownership: Vec<Hunk>,
}

} // verus!

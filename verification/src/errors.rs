//! Structured errors for controller operations.

use vstd::prelude::*;

verus! {

/// Why a controller operation failed.  A conflicted branch is *not* an
/// error: conflict is durable branch state, recorded on the branch record
/// itself, while these variants describe operations that were refused and
/// left the store unchanged.
#[derive(Clone, Copy, Debug, PartialEq, Eq, Structural)]
pub enum VbError {
    /// The underlying repository could not be read or written.
    ObjectStoreError,
    /// A network fetch or push did not reach the upstream remote.
    UpstreamUnreachable,
    /// A requested ownership edit collides with another branch's claim.
    OwnershipConflict,
    /// No virtual branch with the given id exists.
    BranchNotFound,
    /// The branch is still applied; it must be unapplied first.
    BranchApplied,
    /// The branch is conflicted and cannot be committed as it stands.
    BranchConflicted,
    /// The branch owns no hunks, so there is nothing to commit.
    EmptyCommit,
    /// The remote ref moved on; the push would not be a fast-forward.
    PushRejected,
}

} // verus!

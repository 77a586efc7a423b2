//! The controller: the façade that owns a project's virtual-branch
//! state and exposes every mutating and reading operation on it.
//!
//! One controller holds one project's record set: the branch records,
//! the unclaimed hunks, and the base branch record.  Callers serialize
//! mutations per project; the object store and the network transport
//! are outside collaborators whose answers come in as plain values.

use vstd::prelude::*;

use crate::base::BaseBranch;
use crate::base::BaseData;
use crate::base::BaseTarget;
use crate::base::BaseUpdate;
use crate::ledger::hunk_owner;
use crate::ledger::hunk_owner_x;
use crate::ledger::lemma_disjoint_no_dup;
use crate::ledger::lemma_filter_no_dup;
use crate::errors::VbError;
use crate::hunks::Hunk;
use crate::hunks::contains_hunk;
use crate::hunks::copy_hunks;
use crate::hunks::hunk_wf;
use crate::hunks::hunks_disjoint;
use crate::hunks::hunks_overlap;
use crate::hunks::hunks_wf;
use crate::hunks::lists_overlap;
use crate::hunks::overlaps;
use crate::hunks::seqs_overlap;
use crate::vbranch::BranchCreateRequest;
use crate::vbranch::BranchUpdateRequest;
use crate::vbranch::BranchListing;
use crate::vbranch::VirtualBranch;

verus! {

/// Ghost snapshot of a controller's entire state.
#[verifier::ext_equal]
pub ghost struct CtlView {
    /// All branch records, sorted by rank ascending.
    pub branches: Seq<VirtualBranch>,
    /// The unclaimed hunks: the implicit default branch.
    pub unclaimed: Seq<Hunk>,
    /// The base branch record, once one has been set.
    pub base: Option<BaseBranch>,
    /// Next branch id to hand out.
    pub next_id: u64,
    /// Next ordering rank to hand out.
    pub next_rank: u64,
}

/// The per-project virtual branch controller.
pub struct Controller {
    /// All branch records, kept sorted by rank ascending.
    pub branches: Vec<VirtualBranch>,
    /// The unclaimed hunks: the implicit default branch.
    pub unclaimed: Vec<Hunk>,
    /// The base branch record, once one has been set.
    pub base: Option<BaseBranch>,
    /// Next branch id to hand out.
    pub next_id: u64,
    /// Next ordering rank to hand out.
    pub next_rank: u64,
}

impl View for Controller {
    type V = CtlView;

    open spec fn view(&self) -> CtlView {
        CtlView {
            branches: self.branches@,
            unclaimed: self.unclaimed@,
            base: self.base,
            next_id: self.next_id,
            next_rank: self.next_rank,
        }
    }
}

/// A single branch record is well-formed: its hunks cover real ranges,
/// its name is non-empty, and only an applied branch can be conflicted.
pub open spec fn branch_wf(b: VirtualBranch) -> bool {
    &&& hunks_wf(b.ownership@)
    &&& b.name@.len() > 0
    &&& !b.applied ==> !b.conflicted
}

/// No claim of any branch overlaps a claim of any branch at another
/// position.  Each hunk region is owned at most once.
pub open spec fn cross_disjoint(v: CtlView) -> bool {
    forall|i: int, k: int, j: int, l: int|
        0 <= i < v.branches.len() && 0 <= k < v.branches[i].ownership@.len() && 0 <= j
            < v.branches.len() && 0 <= l < v.branches[j].ownership@.len() && (i != j || k != l)
            ==> !hunks_overlap(
            #[trigger] v.branches[i].ownership@[k],
            #[trigger] v.branches[j].ownership@[l],
        )
}

/// No branch claim overlaps an unclaimed hunk.
pub open spec fn claims_vs_unclaimed(v: CtlView) -> bool {
    forall|i: int, k: int, l: int|
        0 <= i < v.branches.len() && 0 <= k < v.branches[i].ownership@.len() && 0 <= l
            < v.unclaimed.len() ==> !hunks_overlap(
            #[trigger] v.branches[i].ownership@[k],
            #[trigger] v.unclaimed[l],
        )
}

/// The controller invariant.  Every operation preserves it: branch
/// records are individually well-formed, sorted by rank with ranks,
/// ids and names unique, the id and rank counters dominate every
/// record, and all ownership claims together with the unclaimed set
/// are pairwise disjoint regions of the diff.
pub open spec fn inv(v: CtlView) -> bool {
    &&& forall|i: int| 0 <= i < v.branches.len() ==> branch_wf(#[trigger] v.branches[i])
    &&& forall|i: int, j: int|
        0 <= i < j < v.branches.len() ==> (#[trigger] v.branches[i].rank) < (
        #[trigger] v.branches[j].rank)
    &&& forall|i: int, j: int|
        0 <= i < v.branches.len() && 0 <= j < v.branches.len() && i != j ==> (
        #[trigger] v.branches[i].id) != (#[trigger] v.branches[j].id)
    &&& forall|i: int, j: int|
        0 <= i < v.branches.len() && 0 <= j < v.branches.len() && i != j ==> (
        #[trigger] v.branches[i].name)@ != (#[trigger] v.branches[j].name)@
    &&& forall|i: int| 0 <= i < v.branches.len() ==> (#[trigger] v.branches[i].rank) < v.next_rank
    &&& forall|i: int| 0 <= i < v.branches.len() ==> (#[trigger] v.branches[i].id) < v.next_id
    &&& hunks_wf(v.unclaimed)
    &&& hunks_disjoint(v.unclaimed)
    &&& cross_disjoint(v)
    &&& claims_vs_unclaimed(v)
}

/// First index among the first `n` records holding branch id `id`.
pub open spec fn find_upto(bs: Seq<VirtualBranch>, id: u64, n: int) -> Option<int>
    decreases n,
{
    if n <= 0 {
        None
    } else {
        match find_upto(bs, id, n - 1) {
            Some(i) => Some(i),
            None => if bs[n - 1].id == id {
                Some(n - 1)
            } else {
                None
            },
        }
    }
}

/// Index of the branch with id `id`, if present.  Under the invariant
/// ids are unique, so this is the only such index.
pub open spec fn find_idx(bs: Seq<VirtualBranch>, id: u64) -> Option<int> {
    find_upto(bs, id, bs.len() as int)
}

/// Once a scan prefix has found the id, longer prefixes agree.
pub proof fn lemma_find_upto_extends(bs: Seq<VirtualBranch>, id: u64, n: int, m: int)
    requires
        0 <= n <= m,
        find_upto(bs, id, n) is Some,
    ensures
        find_upto(bs, id, m) == find_upto(bs, id, n),
    decreases m,
{
    if m > n {
        lemma_find_upto_extends(bs, id, n, m - 1);
    }
}

/// What a scan prefix's answer means.
pub proof fn lemma_find_upto_props(bs: Seq<VirtualBranch>, id: u64, n: int)
    requires
        0 <= n,
    ensures
        match find_upto(bs, id, n) {
            Some(i) => 0 <= i < n && bs[i].id == id,
            None => forall|i: int| 0 <= i < n ==> (#[trigger] bs[i].id) != id,
        },
    decreases n,
{
    if n > 0 {
        lemma_find_upto_props(bs, id, n - 1);
    }
}

impl Controller {
    /// A fresh controller: no branches, no unclaimed hunks, no base.
    pub fn new() -> (r: Controller)
        ensures
            r@.branches.len() == 0,
            r@.unclaimed.len() == 0,
            r@.base is None,
            inv(r@),
    {
        Controller {
            branches: Vec::new(),
            unclaimed: Vec::new(),
            base: None,
            next_id: 0,
            next_rank: 0,
        }
    }

    /// Index of the branch with the given id, if one exists.
    pub fn find_branch(&self, branch_id: u64) -> (r: Option<usize>)
        ensures
            match r {
                Some(i) => i < self@.branches.len() && find_idx(self@.branches, branch_id) == Some(
                    i as int,
                ),
                None => find_idx(self@.branches, branch_id) is None,
            },
    {
        let mut n: usize = 0;
        while n < self.branches.len()
            invariant
                n <= self@.branches.len(),
                find_upto(self@.branches, branch_id, n as int) is None,
            decreases self@.branches.len() - n,
        {
            if self.branches[n].id == branch_id {
                proof {
                    lemma_find_upto_extends(
                        self@.branches,
                        branch_id,
                        n + 1,
                        self@.branches.len() as int,
                    );
                }
                return Some(n);
            }
            n += 1;
        }
        None
    }

    /// Whether `name` may be given to a new branch: non-empty and not
    /// taken by any existing branch.
    pub fn name_available(&self, name: &String) -> (r: bool)
        ensures
            r == (name@.len() > 0 && forall|i: int|
                0 <= i < self@.branches.len() ==> (#[trigger] self@.branches[i].name)@ != name@),
    {
        if name.as_str().is_empty() {
            return false;
        }
        let mut i: usize = 0;
        while i < self.branches.len()
            invariant
                i <= self@.branches.len(),
                name@.len() > 0,
                forall|k: int| 0 <= k < i ==> (#[trigger] self@.branches[k].name)@ != name@,
            decreases self@.branches.len() - i,
        {
            if self.branches[i].name == *name {
                return false;
            }
            i += 1;
        }
        true
    }

    /// Creates a new virtual branch named by the request, with the next
    /// ordering rank, no owned hunks, and not applied.  Its head starts
    /// at the recorded base tip, or at commit 0 before a base is set.
    /// Returns the new branch's id.
    ///
    /// The name must be non-empty and unused; `name_available` decides
    /// that for a caller.
    pub fn create_virtual_branch(&mut self, req: BranchCreateRequest) -> (r: u64)
        requires
            inv(old(self)@),
            old(self).next_id < u64::MAX,
            old(self).next_rank < u64::MAX,
            req.name@.len() > 0,
            forall|i: int|
                0 <= i < old(self)@.branches.len() ==> (#[trigger] old(
                    self,
                )@.branches[i].name)@ != req.name@,
        ensures
            inv(final(self)@),
            r == old(self).next_id,
            final(self)@.branches == old(self)@.branches.push(
                VirtualBranch {
                    id: old(self).next_id,
                    name: req.name,
                    rank: old(self).next_rank,
                    applied: false,
                    conflicted: false,
                    head: base_head(old(self)@),
                    remote_head: None,
                    unpushed: 0,
                    ownership: final(self)@.branches.last().ownership,
                },
            ),
            final(self)@.branches.last().ownership@.len() == 0,
            final(self)@.unclaimed == old(self)@.unclaimed,
            final(self)@.base == old(self)@.base,
            final(self).next_id == old(self).next_id + 1,
            final(self).next_rank == old(self).next_rank + 1,
    {
        let head = match &self.base {
            Some(b) => b.tip,
            None => 0,
        };
        let id = self.next_id;
        let b = VirtualBranch {
            id,
            name: req.name,
            rank: self.next_rank,
            applied: false,
            conflicted: false,
            head,
            remote_head: None,
            unpushed: 0,
            ownership: Vec::new(),
        };
        self.branches.push(b);
        self.next_id = self.next_id + 1;
        self.next_rank = self.next_rank + 1;
        proof {
            lemma_append_empty_claims_inv(old(self)@, self@);
        }
        id
    }

    /// Creates a virtual branch that tracks an existing upstream
    /// branch: the new record's head and remote tracking tip both start
    /// at that branch's tip, so there is nothing to push yet.  Returns
    /// the new branch's id.
    pub fn create_virtual_branch_from_branch(&mut self, name: String, branch_tip: u64) -> (r: u64)
        requires
            inv(old(self)@),
            old(self).next_id < u64::MAX,
            old(self).next_rank < u64::MAX,
            name@.len() > 0,
            forall|i: int|
                0 <= i < old(self)@.branches.len() ==> (#[trigger] old(
                    self,
                )@.branches[i].name)@ != name@,
        ensures
            inv(final(self)@),
            r == old(self).next_id,
            final(self)@.branches == old(self)@.branches.push(
                VirtualBranch {
                    id: old(self).next_id,
                    name: name,
                    rank: old(self).next_rank,
                    applied: false,
                    conflicted: false,
                    head: branch_tip,
                    remote_head: Some(branch_tip),
                    unpushed: 0,
                    ownership: final(self)@.branches.last().ownership,
                },
            ),
            final(self)@.branches.last().ownership@.len() == 0,
            final(self)@.unclaimed == old(self)@.unclaimed,
            final(self)@.base == old(self)@.base,
            final(self).next_id == old(self).next_id + 1,
            final(self).next_rank == old(self).next_rank + 1,
    {
        let id = self.next_id;
        let b = VirtualBranch {
            id,
            name,
            rank: self.next_rank,
            applied: false,
            conflicted: false,
            head: branch_tip,
            remote_head: Some(branch_tip),
            unpushed: 0,
            ownership: Vec::new(),
        };
        self.branches.push(b);
        self.next_id = self.next_id + 1;
        self.next_rank = self.next_rank + 1;
        proof {
            lemma_append_empty_claims_inv(old(self)@, self@);
        }
        id
    }

    /// Lists every branch, sorted by rank ascending, as read-only rows.
    pub fn list_virtual_branches(&self) -> (r: Vec<BranchListing>)
        requires
            inv(self@),
        ensures
            r@.len() == self@.branches.len(),
            forall|i: int|
                0 <= i < r@.len() ==> listing_matches(#[trigger] r@[i], self@.branches[i]),
            forall|i: int, j: int|
                0 <= i < j < r@.len() ==> (#[trigger] r@[i].rank) < (#[trigger] r@[j].rank),
    {
        let mut r: Vec<BranchListing> = Vec::new();
        let mut i: usize = 0;
        while i < self.branches.len()
            invariant
                inv(self@),
                i <= self@.branches.len(),
                r@.len() == i,
                forall|k: int| 0 <= k < i ==> listing_matches(#[trigger] r@[k], self@.branches[k]),
            decreases self@.branches.len() - i,
        {
            let b = &self.branches[i];
            let row = BranchListing {
                id: b.id,
                name: b.name.clone(),
                rank: b.rank,
                applied: b.applied,
                conflicted: b.conflicted,
                head: b.head,
                ownership: copy_hunks(&b.ownership),
            };
            r.push(row);
            i += 1;
        }
        r
    }

    /// A read-only copy of the base branch record, if one has been set.
    pub fn get_base_branch_data(&self) -> (r: Option<BaseData>)
        ensures
            match r {
                Some(d) => self@.base matches Some(b) && base_data_matches(d, b),
                None => self@.base is None,
            },
    {
        match &self.base {
            Some(b) => Some(
                BaseData {
                    remote_name: b.remote_name.clone(),
                    tip: b.tip,
                    fork_point: b.fork_point,
                    ahead: b.ahead,
                    behind: b.behind,
                    drift: copy_hunks(&b.drift),
                },
            ),
            None => None,
        }
    }

    /// Applies the branch: its owned hunks are materialized in the
    /// working directory beside every other applied branch's.  When the
    /// owned hunks collide with the upstream drift they cannot be
    /// combined cleanly: the branch is then flagged conflicted — still
    /// a success, since conflict is branch state, not a failure.  The
    /// claims themselves are kept as they are.  A base branch must have
    /// been set; re-applying re-runs the same combination check.
    pub fn apply_branch(&mut self, branch_id: u64) -> (r: Result<(), VbError>)
        requires
            inv(old(self)@),
            old(self)@.base is Some,
        ensures
            inv(final(self)@),
            match r {
                Ok(()) => {
                    &&& find_idx(old(self)@.branches, branch_id) matches Some(i)
                    &&& final(self)@ == apply_next(old(self)@, find_idx(
                        old(self)@.branches,
                        branch_id,
                    )->0)
                },
                Err(VbError::BranchNotFound) => {
                    &&& find_idx(old(self)@.branches, branch_id) is None
                    &&& final(self)@ == old(self)@
                },
                Err(_) => false,
            },
    {
        let i = match self.find_branch(branch_id) {
            Some(i) => i,
            None => {
                return Err(VbError::BranchNotFound);
            },
        };
        let conflicted = match &self.base {
            Some(b) => lists_overlap(&self.branches[i].ownership, &b.drift),
            None => false,
        };
        let mut b = self.branches.remove(i);
        b.applied = true;
        b.conflicted = conflicted;
        self.branches.insert(i, b);
        proof {
            assert(final(self)@.branches =~= apply_next(old(self)@, i as int).branches);
            assert(final(self)@ =~= apply_next(old(self)@, i as int));
            lemma_update_one_inv(old(self)@, final(self)@, i as int);
        }
        Ok(())
    }

    /// Unapplies the branch: exactly its owned hunks leave the working
    /// directory, other applied branches' hunks stay, and any conflict
    /// it had is cleared.  The claims themselves are kept as they are.
    pub fn unapply_branch(&mut self, branch_id: u64) -> (r: Result<(), VbError>)
        requires
            inv(old(self)@),
        ensures
            inv(final(self)@),
            match r {
                Ok(()) => {
                    &&& find_idx(old(self)@.branches, branch_id) matches Some(i)
                    &&& final(self)@ == unapply_next(old(self)@, find_idx(
                        old(self)@.branches,
                        branch_id,
                    )->0)
                },
                Err(VbError::BranchNotFound) => {
                    &&& find_idx(old(self)@.branches, branch_id) is None
                    &&& final(self)@ == old(self)@
                },
                Err(_) => false,
            },
    {
        let i = match self.find_branch(branch_id) {
            Some(i) => i,
            None => {
                return Err(VbError::BranchNotFound);
            },
        };
        let mut b = self.branches.remove(i);
        b.applied = false;
        b.conflicted = false;
        self.branches.insert(i, b);
        proof {
            assert(final(self)@.branches =~= unapply_next(old(self)@, i as int).branches);
            assert(final(self)@ =~= unapply_next(old(self)@, i as int));
            lemma_update_one_inv(old(self)@, final(self)@, i as int);
        }
        Ok(())
    }

    /// Deletes the branch.  An applied branch is refused: it must be
    /// unapplied first.  The deleted branch's owned hunks revert to the
    /// unclaimed set, so no part of the diff is lost.
    pub fn delete_virtual_branch(&mut self, branch_id: u64) -> (r: Result<(), VbError>)
        requires
            inv(old(self)@),
        ensures
            inv(final(self)@),
            match r {
                Ok(()) => {
                    &&& find_idx(old(self)@.branches, branch_id) matches Some(i)
                    &&& !old(self)@.branches[find_idx(old(self)@.branches, branch_id)->0].applied
                    &&& final(self)@.branches == old(self)@.branches.remove(find_idx(
                        old(self)@.branches,
                        branch_id,
                    )->0)
                    &&& final(self)@.unclaimed == old(self)@.unclaimed + old(self)@.branches[
                        find_idx(old(self)@.branches, branch_id)->0].ownership@
                    &&& final(self)@.base == old(self)@.base
                    &&& final(self).next_id == old(self).next_id
                    &&& final(self).next_rank == old(self).next_rank
                },
                Err(VbError::BranchNotFound) => {
                    &&& find_idx(old(self)@.branches, branch_id) is None
                    &&& final(self)@ == old(self)@
                },
                Err(VbError::BranchApplied) => {
                    &&& find_idx(old(self)@.branches, branch_id) matches Some(i)
                    &&& old(self)@.branches[find_idx(old(self)@.branches, branch_id)->0].applied
                    &&& final(self)@ == old(self)@
                },
                Err(_) => false,
            },
    {
        let i = match self.find_branch(branch_id) {
            Some(i) => i,
            None => {
                return Err(VbError::BranchNotFound);
            },
        };
        if self.branches[i].applied {
            return Err(VbError::BranchApplied);
        }
        let mut b = self.branches.remove(i);
        self.unclaimed.append(&mut b.ownership);
        proof {
            lemma_delete_inv(old(self)@, final(self)@, i as int);
        }
        Ok(())
    }

    /// Pushes the branch's commits to its remote tracking ref, creating
    /// the ref on first push.  The transport's report comes in as the
    /// `outcome` value; only a delivered push moves the recorded remote
    /// tip, and a rejected or unreachable push changes nothing.  The
    /// branch must have at least one commit the remote ref lacks.
    pub fn push_virtual_branch(&mut self, branch_id: u64, outcome: PushOutcome) -> (r: Result<
        (),
        VbError,
    >)
        requires
            inv(old(self)@),
            find_idx(old(self)@.branches, branch_id) matches Some(i) ==> old(
                self,
            )@.branches[i].unpushed > 0,
        ensures
            inv(final(self)@),
            match r {
                Ok(()) => {
                    &&& find_idx(old(self)@.branches, branch_id) matches Some(i)
                    &&& outcome == PushOutcome::Delivered
                    &&& {
                        let i = find_idx(old(self)@.branches, branch_id)->0;
                        let b0 = old(self)@.branches[i];
                        final(self)@ == (CtlView {
                            branches: old(self)@.branches.update(
                                i,
                                VirtualBranch {
                                    remote_head: Some(b0.head),
                                    unpushed: 0,
                                    ..b0
                                },
                            ),
                            ..old(self)@
                        })
                    }
                },
                Err(VbError::BranchNotFound) => {
                    &&& find_idx(old(self)@.branches, branch_id) is None
                    &&& final(self)@ == old(self)@
                },
                Err(VbError::UpstreamUnreachable) => {
                    &&& find_idx(old(self)@.branches, branch_id) matches Some(i)
                    &&& outcome == PushOutcome::Unreachable
                    &&& final(self)@ == old(self)@
                },
                Err(VbError::PushRejected) => {
                    &&& find_idx(old(self)@.branches, branch_id) matches Some(i)
                    &&& outcome == PushOutcome::NonFastForward
                    &&& final(self)@ == old(self)@
                },
                Err(_) => false,
            },
    {
        let i = match self.find_branch(branch_id) {
            Some(i) => i,
            None => {
                return Err(VbError::BranchNotFound);
            },
        };
        match outcome {
            PushOutcome::Unreachable => Err(VbError::UpstreamUnreachable),
            PushOutcome::NonFastForward => Err(VbError::PushRejected),
            PushOutcome::Delivered => {
                let mut b = self.branches.remove(i);
                b.remote_head = Some(b.head);
                b.unpushed = 0;
                self.branches.insert(i, b);
                proof {
                    assert(final(self)@.branches =~= old(self)@.branches.update(
                        i as int,
                        final(self)@.branches[i as int],
                    ));
                    assert(final(self)@ =~= (CtlView {
                        branches: old(self)@.branches.update(
                            i as int,
                            final(self)@.branches[i as int],
                        ),
                        ..old(self)@
                    }));
                    lemma_update_one_inv(old(self)@, final(self)@, i as int);
                }
                Ok(())
            },
        }
    }

    /// Builds a commit from exactly this branch's owned hunks, on top
    /// of the branch's current head.  The object store's answer comes
    /// in as `minted`: the id of the written commit object, or `None`
    /// when the write failed.  On success the branch's head advances to
    /// the new commit and its hunks leave the ledger — they are no
    /// longer uncommitted — while every other branch's claims, flags
    /// and heads, and the unclaimed set, stay exactly as they were.  On
    /// any failure nothing changes.  The branch must be applied.
    pub fn commit_virtual_branch(
        &mut self,
        branch_id: u64,
        _message: &str,
        minted: Option<u64>,
    ) -> (r: Result<u64, VbError>)
        requires
            inv(old(self)@),
            find_idx(old(self)@.branches, branch_id) matches Some(i) ==> old(
                self,
            )@.branches[i].applied && old(self)@.branches[i].unpushed < u64::MAX,
        ensures
            inv(final(self)@),
            match r {
                Ok(cid) => {
                    &&& find_idx(old(self)@.branches, branch_id) matches Some(i)
                    &&& minted == Some(cid)
                    &&& {
                        let i = find_idx(old(self)@.branches, branch_id)->0;
                        let b0 = old(self)@.branches[i];
                        &&& !b0.conflicted
                        &&& b0.ownership@.len() > 0
                        &&& final(self)@.branches.len() == old(self)@.branches.len()
                        &&& final(self)@.branches[i].head == cid
                        &&& final(self)@.branches[i].unpushed == b0.unpushed + 1
                        &&& final(self)@.branches[i].ownership@.len() == 0
                        &&& final(self)@.branches[i].same_meta(
                            VirtualBranch { head: cid, unpushed: final(self)@.branches[i].unpushed, ..b0 },
                        )
                        &&& forall|j: int|
                            0 <= j < old(self)@.branches.len() && j != i
                                ==> final(self)@.branches[j] == #[trigger] old(self)@.branches[j]
                        &&& final(self)@.unclaimed == old(self)@.unclaimed
                        &&& final(self)@.base == old(self)@.base
                        &&& final(self).next_id == old(self).next_id
                        &&& final(self).next_rank == old(self).next_rank
                    }
                },
                Err(VbError::BranchNotFound) => {
                    &&& find_idx(old(self)@.branches, branch_id) is None
                    &&& final(self)@ == old(self)@
                },
                Err(VbError::BranchConflicted) => {
                    &&& find_idx(old(self)@.branches, branch_id) matches Some(i)
                    &&& old(self)@.branches[find_idx(old(self)@.branches, branch_id)->0].conflicted
                    &&& final(self)@ == old(self)@
                },
                Err(VbError::EmptyCommit) => {
                    &&& find_idx(old(self)@.branches, branch_id) matches Some(i)
                    &&& {
                        let b0 = old(self)@.branches[find_idx(old(self)@.branches, branch_id)->0];
                        !b0.conflicted && b0.ownership@.len() == 0
                    }
                    &&& final(self)@ == old(self)@
                },
                Err(VbError::ObjectStoreError) => {
                    &&& find_idx(old(self)@.branches, branch_id) matches Some(i)
                    &&& {
                        let b0 = old(self)@.branches[find_idx(old(self)@.branches, branch_id)->0];
                        !b0.conflicted && b0.ownership@.len() > 0
                    }
                    &&& minted is None
                    &&& final(self)@ == old(self)@
                },
                Err(_) => false,
            },
    {
        let i = match self.find_branch(branch_id) {
            Some(i) => i,
            None => {
                return Err(VbError::BranchNotFound);
            },
        };
        if self.branches[i].conflicted {
            return Err(VbError::BranchConflicted);
        }
        if self.branches[i].ownership.len() == 0 {
            return Err(VbError::EmptyCommit);
        }
        let cid = match minted {
            Some(cid) => cid,
            None => {
                return Err(VbError::ObjectStoreError);
            },
        };
        let mut b = self.branches.remove(i);
        b.head = cid;
        b.unpushed = b.unpushed + 1;
        b.ownership = Vec::new();
        self.branches.insert(i, b);
        proof {
            assert(final(self)@.branches =~= old(self)@.branches.update(
                i as int,
                final(self)@.branches[i as int],
            ));
            lemma_update_one_inv(old(self)@, final(self)@, i as int);
        }
        Ok(cid)
    }

    /// Syncs the recorded base with the tracked upstream ref.  The
    /// fetch's report comes in as `fetched`; a failed fetch leaves the
    /// base record untouched.  If the tip moved, the new tip, counts
    /// and drift are recorded and every applied branch is re-applied
    /// against the new baseline in rank order, flagging those whose
    /// owned hunks the upstream overrode; claims are never changed.
    /// If the tip did not move, nothing changes — the operation is
    /// idempotent (see `lemma_update_base_idempotent`).
    pub fn update_base_branch(&mut self, fetched: Option<BaseUpdate>) -> (r: Result<(), VbError>)
        requires
            inv(old(self)@),
            old(self)@.base is Some,
        ensures
            inv(final(self)@),
            final(self)@.base is Some,
            match r {
                Ok(()) => {
                    &&& fetched matches Some(u)
                    &&& final(self)@ == ub_next(old(self)@, fetched->0)
                },
                Err(VbError::UpstreamUnreachable) => {
                    &&& fetched is None
                    &&& final(self)@ == old(self)@
                },
                Err(_) => false,
            },
    {
        let u = match fetched {
            Some(u) => u,
            None => {
                return Err(VbError::UpstreamUnreachable);
            },
        };
        let same = match &self.base {
            Some(b) => b.tip == u.tip,
            None => false,
        };
        if same {
            return Ok(());
        }
        let ghost v0 = self@;
        let mut i: usize = 0;
        while i < self.branches.len()
            invariant
                inv(v0),
                self@.branches.len() == v0.branches.len(),
                i <= v0.branches.len(),
                forall|j: int|
                    0 <= j < i ==> self@.branches[j] == refreshed(
                        #[trigger] v0.branches[j],
                        u.drift@,
                    ),
                forall|j: int|
                    i <= j < v0.branches.len() ==> self@.branches[j] == #[trigger] v0.branches[j],
                self@.unclaimed == v0.unclaimed,
                self@.base == v0.base,
                self@.next_id == v0.next_id,
                self@.next_rank == v0.next_rank,
            decreases v0.branches.len() - i,
        {
            if self.branches[i].applied {
                let ghost pre = self@.branches;
                let c = lists_overlap(&self.branches[i].ownership, &u.drift);
                let mut b = self.branches.remove(i);
                b.conflicted = c;
                self.branches.insert(i, b);
                proof {
                    assert(self@.branches =~= pre.update(i as int, self@.branches[i as int]));
                    assert(self@.branches[i as int] == refreshed(v0.branches[i as int], u.drift@));
                }
            }
            i += 1;
        }
        let taken = self.base.take();
        let ob = match taken {
            Some(b) => b,
            None => vstd::pervasive::unreached(),
        };
        self.base = Some(
            BaseBranch {
                remote_name: ob.remote_name,
                tip: u.tip,
                fork_point: ob.fork_point,
                ahead: u.ahead,
                behind: u.behind,
                drift: u.drift,
            },
        );
        proof {
            let vn = ub_next(v0, u);
            assert forall|j: int| 0 <= j < v0.branches.len() implies self@.branches[j]
                == vn.branches[j] by {
                assert(self@.branches[j] == refreshed(v0.branches[j], u.drift@));
            }
            assert(self@.branches =~= vn.branches);
            assert(final(self)@ =~= vn);
            lemma_ub_next_inv(v0, u);
        }
        Ok(())
    }

    /// Reconciles the ownership ledger against a freshly derived
    /// uncommitted diff.  Each fresh hunk goes to the branch whose
    /// uncontested prior claim covers its region — when prior claims of
    /// two branches overlap each other, the lower rank wins and the
    /// loser's remainder falls through — and to the unclaimed set when
    /// no branch may take it.  Branch metadata is untouched.  Together
    /// the new lists partition the diff exactly: no hunk is lost or
    /// duplicated (see `lemma_reconciled_partition`).
    pub fn reconcile_ownership(&mut self, hunks: &Vec<Hunk>)
        requires
            inv(old(self)@),
            hunks_wf(hunks@),
            hunks_disjoint(hunks@),
        ensures
            inv(final(self)@),
            final(self)@.branches.len() == old(self)@.branches.len(),
            forall|i: int|
                0 <= i < final(self)@.branches.len() ==> (#[trigger] final(self)@.branches[i]).same_meta(old(self)@.branches[i]),
            forall|i: int|
                0 <= i < final(self)@.branches.len() ==> (#[trigger] final(self)@.branches[i]).ownership@ == hunks@.filter(
                    |h: Hunk| hunk_owner(old(self)@.branches, hunks@, h) == Some(i),
                ),
            final(self)@.unclaimed == hunks@.filter(
                |h: Hunk| hunk_owner(old(self)@.branches, hunks@, h) is None,
            ),
            final(self)@.base == old(self)@.base,
            final(self).next_id == old(self).next_id,
            final(self).next_rank == old(self).next_rank,
    {
        let ghost bs0 = self@.branches;
        let n = self.branches.len();
        let mut new_lists: Vec<Vec<Hunk>> = Vec::new();
        let mut i: usize = 0;
        while i < n
            invariant
                n == bs0.len(),
                self@.branches == bs0,
                i <= n,
                new_lists@.len() == i,
                forall|k: int|
                    0 <= k < i ==> (#[trigger] new_lists@[k])@ == hunks@.filter(
                        |h: Hunk| hunk_owner(bs0, hunks@, h) == Some(k),
                    ),
            decreases n - i,
        {
            let mut lst: Vec<Hunk> = Vec::new();
            let mut j: usize = 0;
            while j < hunks.len()
                invariant
                    n == bs0.len(),
                    self@.branches == bs0,
                    i < n,
                    j <= hunks@.len(),
                    lst@ == hunks@.take(j as int).filter(
                        |h: Hunk| hunk_owner(bs0, hunks@, h) == Some(i as int),
                    ),
                decreases hunks@.len() - j,
            {
                let h = hunks[j];
                let take = match hunk_owner_x(&self.branches, hunks, h) {
                    Some(oi) => oi == i,
                    None => false,
                };
                if take {
                    lst.push(h);
                }
                proof {
                    let p = |x: Hunk| hunk_owner(bs0, hunks@, x) == Some(i as int);
                    assert(hunks@.take(j + 1 as int) =~= hunks@.take(j as int).push(
                        hunks@[j as int],
                    ));
                    hunks@.take(j as int).lemma_filter_push(hunks@[j as int], p);
                }
                j += 1;
            }
            proof {
                assert(hunks@.take(hunks@.len() as int) =~= hunks@);
            }
            new_lists.push(lst);
            i += 1;
        }
        let mut new_unclaimed: Vec<Hunk> = Vec::new();
        let mut j: usize = 0;
        while j < hunks.len()
            invariant
                n == bs0.len(),
                self@.branches == bs0,
                j <= hunks@.len(),
                new_lists@.len() == n,
                forall|k: int|
                    0 <= k < n ==> (#[trigger] new_lists@[k])@ == hunks@.filter(
                        |h: Hunk| hunk_owner(bs0, hunks@, h) == Some(k),
                    ),
                new_unclaimed@ == hunks@.take(j as int).filter(
                    |h: Hunk| hunk_owner(bs0, hunks@, h) is None,
                ),
            decreases hunks@.len() - j,
        {
            let h = hunks[j];
            let take = match hunk_owner_x(&self.branches, hunks, h) {
                Some(_) => false,
                None => true,
            };
            if take {
                new_unclaimed.push(h);
            }
            proof {
                let p = |x: Hunk| hunk_owner(bs0, hunks@, x) is None;
                assert(hunks@.take(j + 1 as int) =~= hunks@.take(j as int).push(hunks@[j as int]));
                hunks@.take(j as int).lemma_filter_push(hunks@[j as int], p);
            }
            j += 1;
        }
        proof {
            assert(hunks@.take(hunks@.len() as int) =~= hunks@);
        }
        self.unclaimed = new_unclaimed;
        let mut i: usize = n;
        while i > 0
            invariant
                n == bs0.len(),
                i <= n,
                new_lists@.len() == i,
                forall|k: int|
                    0 <= k < i ==> (#[trigger] new_lists@[k])@ == hunks@.filter(
                        |h: Hunk| hunk_owner(bs0, hunks@, h) == Some(k),
                    ),
                self@.branches.len() == n,
                forall|k: int| 0 <= k < i ==> self@.branches[k] == #[trigger] bs0[k],
                forall|k: int|
                    i <= k < n ==> (#[trigger] self@.branches[k]).same_meta(bs0[k])
                        && self@.branches[k].ownership@ == hunks@.filter(
                        |h: Hunk| hunk_owner(bs0, hunks@, h) == Some(k),
                    ),
                self@.unclaimed == hunks@.filter(|h: Hunk| hunk_owner(bs0, hunks@, h) is None),
                self@.base == old(self)@.base,
                self@.next_id == old(self).next_id,
                self@.next_rank == old(self).next_rank,
            decreases i,
        {
            i -= 1;
            let lst = match new_lists.pop() {
                Some(lst) => lst,
                None => vstd::pervasive::unreached(),
            };
            let ghost pre = self@.branches;
            let mut b = self.branches.remove(i);
            b.ownership = lst;
            self.branches.insert(i, b);
            proof {
                assert(self@.branches =~= pre.update(i as int, self@.branches[i as int]));
            }
        }
        proof {
            lemma_reconcile_inv(old(self)@, final(self)@, hunks@);
        }
    }

    /// Chooses (or re-targets) the base branch.  The object store's
    /// resolution of the chosen upstream ref comes in as `target`: its
    /// tip and fork point, the ahead/behind counts, and the full
    /// current uncommitted diff against that tip; `None` means the ref
    /// could not be read, which changes nothing.  On success the base
    /// record is written with no drift yet, ownership is re-derived for
    /// the whole diff, and a copy of the new record is returned.
    pub fn set_base_branch(&mut self, target: Option<BaseTarget>) -> (r: Result<BaseData, VbError>)
        requires
            inv(old(self)@),
            target matches Some(t) ==> hunks_wf(t.diff@) && hunks_disjoint(t.diff@),
        ensures
            inv(final(self)@),
            match r {
                Ok(d) => {
                    &&& target matches Some(t)
                    &&& {
                        let t = target->0;
                        &&& final(self)@.base matches Some(nb)
                        &&& {
                            let nb = final(self)@.base->0;
                            &&& nb.remote_name == t.remote_name
                            &&& nb.tip == t.tip
                            &&& nb.fork_point == t.fork_point
                            &&& nb.ahead == t.ahead
                            &&& nb.behind == t.behind
                            &&& nb.drift@.len() == 0
                            &&& base_data_matches(d, nb)
                        }
                        &&& final(self)@.branches.len() == old(self)@.branches.len()
                        &&& forall|i: int|
                            0 <= i < final(self)@.branches.len() ==> (#[trigger] final(self)@.branches[i]).same_meta(old(self)@.branches[i])
                        &&& forall|i: int|
                            0 <= i < final(self)@.branches.len() ==> (#[trigger] final(self)@.branches[i]).ownership@ == t.diff@.filter(
                                |h: Hunk| hunk_owner(old(self)@.branches, t.diff@, h) == Some(i),
                            )
                        &&& final(self)@.unclaimed == t.diff@.filter(
                            |h: Hunk| hunk_owner(old(self)@.branches, t.diff@, h) is None,
                        )
                        &&& final(self).next_id == old(self).next_id
                        &&& final(self).next_rank == old(self).next_rank
                    }
                },
                Err(VbError::ObjectStoreError) => {
                    &&& target is None
                    &&& final(self)@ == old(self)@
                },
                Err(_) => false,
            },
    {
        let t = match target {
            Some(t) => t,
            None => {
                return Err(VbError::ObjectStoreError);
            },
        };
        let BaseTarget { remote_name, tip, fork_point, ahead, behind, diff } = t;
        let data = BaseData {
            remote_name: remote_name.clone(),
            tip,
            fork_point,
            ahead,
            behind,
            drift: Vec::new(),
        };
        self.base = Some(
            BaseBranch { remote_name, tip, fork_point, ahead, behind, drift: Vec::new() },
        );
        self.reconcile_ownership(&diff);
        Ok(data)
    }

    /// Updates a branch record from the request: a new display name, a
    /// new ordering rank, or a replacement ownership claim list.  An
    /// ownership edit must point only at hunks the branch already owns
    /// or at unclaimed hunks, pairwise disjoint; otherwise the edit
    /// collides with another branch's claim and is refused whole with
    /// `OwnershipConflict`, changing nothing.  On success, hunks the
    /// branch took leave the unclaimed set and hunks it dropped fall
    /// back to it, so the diff is preserved; a rank change moves the
    /// record to the new rank's sorted position.  A new name must be
    /// non-empty and unused; a new rank must be unused.
    pub fn update_virtual_branch(&mut self, req: BranchUpdateRequest) -> (r: Result<(), VbError>)
        requires
            inv(old(self)@),
            req.ownership matches Some(l) ==> hunks_wf(l@),
            (find_idx(old(self)@.branches, req.branch_id) is Some && req.name is Some) ==> (
            req.name->0@.len() > 0 && forall|j: int|
                0 <= j < old(self)@.branches.len() && j != find_idx(
                    old(self)@.branches,
                    req.branch_id,
                )->0 ==> (#[trigger] old(self)@.branches[j].name)@ != req.name->0@),
            (find_idx(old(self)@.branches, req.branch_id) is Some && req.order is Some) ==> (
            req.order->0 < u64::MAX && forall|j: int|
                0 <= j < old(self)@.branches.len() && j != find_idx(
                    old(self)@.branches,
                    req.branch_id,
                )->0 ==> (#[trigger] old(self)@.branches[j].rank) != req.order->0),
        ensures
            inv(final(self)@),
            match r {
                Ok(()) => {
                    &&& find_idx(old(self)@.branches, req.branch_id) matches Some(i)
                    &&& {
                        let i = find_idx(old(self)@.branches, req.branch_id)->0;
                        &&& (req.ownership matches Some(l) ==> own_edit_ok(old(self)@, i, l@))
                        &&& final(self)@.branches == reposition(
                            old(self)@.branches,
                            i,
                            upd_branch(old(self)@.branches[i], req),
                            req.order,
                        )
                        &&& final(self)@.unclaimed == upd_unclaimed(old(self)@, i, req)
                        &&& final(self)@.base == old(self)@.base
                        &&& final(self).next_id == old(self).next_id
                        &&& final(self).next_rank as int == (match req.order {
                            Some(o) => if o >= old(self).next_rank {
                                o + 1
                            } else {
                                old(self).next_rank as int
                            },
                            None => old(self).next_rank as int,
                        })
                    }
                },
                Err(VbError::BranchNotFound) => {
                    &&& find_idx(old(self)@.branches, req.branch_id) is None
                    &&& final(self)@ == old(self)@
                },
                Err(VbError::OwnershipConflict) => {
                    &&& find_idx(old(self)@.branches, req.branch_id) matches Some(i)
                    &&& req.ownership matches Some(l)
                    &&& !own_edit_ok(
                        old(self)@,
                        find_idx(old(self)@.branches, req.branch_id)->0,
                        req.ownership->0@,
                    )
                    &&& final(self)@ == old(self)@
                },
                Err(_) => false,
            },
    {
        let i = match self.find_branch(req.branch_id) {
            Some(i) => i,
            None => {
                return Err(VbError::BranchNotFound);
            },
        };
        if let Some(l) = &req.ownership {
            if !own_edit_ok_x(&self.branches[i].ownership, &self.unclaimed, l) {
                return Err(VbError::OwnershipConflict);
            }
        }
        let BranchUpdateRequest { branch_id: _, name, order, ownership } = req;
        let mut b = self.branches.remove(i);
        if let Some(l) = ownership {
            let mut nu: Vec<Hunk> = Vec::new();
            let mut m: usize = 0;
            while m < self.unclaimed.len()
                invariant
                    m <= self@.unclaimed.len(),
                    nu@ == self@.unclaimed.take(m as int).filter(|h: Hunk| !l@.contains(h)),
                decreases self@.unclaimed.len() - m,
            {
                let h = self.unclaimed[m];
                if !contains_hunk(&l, h) {
                    nu.push(h);
                }
                proof {
                    let pu = |x: Hunk| !l@.contains(x);
                    assert(self@.unclaimed.take(m + 1 as int) =~= self@.unclaimed.take(
                        m as int,
                    ).push(self@.unclaimed[m as int]));
                    self@.unclaimed.take(m as int).lemma_filter_push(
                        self@.unclaimed[m as int],
                        pu,
                    );
                }
                m += 1;
            }
            proof {
                assert(self@.unclaimed.take(self@.unclaimed.len() as int) =~= self@.unclaimed);
            }
            let mut m: usize = 0;
            while m < b.ownership.len()
                invariant
                    m <= b.ownership@.len(),
                    nu@ == self@.unclaimed.filter(|h: Hunk| !l@.contains(h)) + b.ownership@.take(
                        m as int,
                    ).filter(|h: Hunk| !l@.contains(h)),
                decreases b.ownership@.len() - m,
            {
                let h = b.ownership[m];
                if !contains_hunk(&l, h) {
                    nu.push(h);
                }
                proof {
                    let pu = |x: Hunk| !l@.contains(x);
                    assert(b.ownership@.take(m + 1 as int) =~= b.ownership@.take(m as int).push(
                        b.ownership@[m as int],
                    ));
                    b.ownership@.take(m as int).lemma_filter_push(b.ownership@[m as int], pu);
                }
                m += 1;
            }
            proof {
                assert(b.ownership@.take(b.ownership@.len() as int) =~= b.ownership@);
            }
            self.unclaimed = nu;
            b.ownership = l;
        }
        if let Some(nm) = name {
            b.name = nm;
        }
        match order {
            Some(o) => {
                b.rank = o;
                if o >= self.next_rank {
                    self.next_rank = o + 1;
                }
                let mut p: usize = 0;
                while p < self.branches.len() && self.branches[p].rank < o
                    invariant
                        p <= self@.branches.len(),
                        forall|q: int| 0 <= q < p ==> (#[trigger] self@.branches[q].rank) < o,
                    decreases self@.branches.len() - p,
                {
                    p += 1;
                }
                proof {
                    let bs1 = old(self)@.branches.remove(i as int);
                    assert(self@.branches == bs1);
                    lemma_rank_pos_unique(bs1, o, p as int);
                }
                self.branches.insert(p, b);
            },
            None => {
                self.branches.insert(i, b);
                proof {
                    assert(self@.branches =~= old(self)@.branches.update(
                        i as int,
                        self@.branches[i as int],
                    ));
                }
            },
        }
        proof {
            assert(final(self)@.branches == reposition(
                old(self)@.branches,
                i as int,
                upd_branch(old(self)@.branches[i as int], req),
                req.order,
            ));
            lemma_update_branch_inv(old(self)@, final(self)@, i as int, req);
        }
        Ok(())
    }
}

/// Decides `own_edit_ok`: the requested hunks are pairwise disjoint
/// and each is owned by the branch already or unclaimed.
fn own_edit_ok_x(own: &Vec<Hunk>, uncl: &Vec<Hunk>, l: &Vec<Hunk>) -> (r: bool)
    ensures
        r == (hunks_disjoint(l@) && forall|k: int|
            0 <= k < l@.len() ==> own@.contains(#[trigger] l@[k]) || uncl@.contains(
                #[trigger] l@[k],
            )),
{
    let mut k: usize = 0;
    while k < l.len()
        invariant
            k <= l@.len(),
            forall|a: int, b: int|
                0 <= a < k && a < b < l@.len() ==> !hunks_overlap(
                    #[trigger] l@[a],
                    #[trigger] l@[b],
                ),
            forall|a: int|
                0 <= a < k ==> own@.contains(#[trigger] l@[a]) || uncl@.contains(#[trigger] l@[a]),
        decreases l@.len() - k,
    {
        if !contains_hunk(own, l[k]) {
            if !contains_hunk(uncl, l[k]) {
                return false;
            }
        }
        let mut k2: usize = k + 1;
        while k2 < l.len()
            invariant
                k < l@.len(),
                k + 1 <= k2 <= l@.len(),
                forall|b: int|
                    k < b < k2 ==> !hunks_overlap(l@[k as int], #[trigger] l@[b]),
            decreases l@.len() - k2,
        {
            if overlaps(l[k], l[k2]) {
                return false;
            }
            k2 += 1;
        }
        k += 1;
    }
    proof {
        assert forall|a: int, b: int|
            0 <= a < l@.len() && 0 <= b < l@.len() && a != b implies !hunks_overlap(
            #[trigger] l@[a],
            #[trigger] l@[b],
        ) by {
            if b < a {
                assert(!hunks_overlap(l@[b], l@[a]));
            }
        }
    }
    true
}

/// On a rank-sorted list, a scan position that splits the ranks below
/// `r` from those at or above it is exactly `rank_pos`.
proof fn lemma_rank_pos_unique(bs: Seq<VirtualBranch>, r: u64, p: int)
    requires
        forall|a: int, b: int|
            0 <= a < b < bs.len() ==> (#[trigger] bs[a].rank) < (#[trigger] bs[b].rank),
        0 <= p <= bs.len(),
        forall|q: int| 0 <= q < p ==> (#[trigger] bs[q].rank) < r,
        p < bs.len() ==> bs[p].rank >= r,
    ensures
        rank_pos(bs, r) == p,
{
    lemma_rank_pos_props(bs, r);
    let rp = rank_pos(bs, r);
    if rp < p {
        assert(bs[rp].rank < r);
        assert(bs[rp].rank >= r);
    } else if p < rp {
        assert(bs[p].rank < r);
    }
}

/// What the transport reports back for an attempted push of a branch's
/// commit chain to its remote tracking ref.
#[derive(Clone, Copy, Debug, PartialEq, Eq, Structural)]
pub enum PushOutcome {
    /// The remote accepted the fast-forward; the tracking ref now holds
    /// the branch head.
    Delivered,
    /// The remote ref has commits the branch lacks; nothing was moved.
    NonFastForward,
    /// The remote could not be reached; nothing was moved.
    Unreachable,
}

/// Deleting an unapplied branch keeps the invariant: its claims move,
/// unchanged and still disjoint from everything else, to the unclaimed
/// set.
proof fn lemma_delete_inv(v0: CtlView, v1: CtlView, i: int)
    requires
        inv(v0),
        0 <= i < v0.branches.len(),
        v1.branches == v0.branches.remove(i),
        v1.unclaimed == v0.unclaimed + v0.branches[i].ownership@,
        v1.next_id == v0.next_id,
        v1.next_rank == v0.next_rank,
    ensures
        inv(v1),
{
    v0.branches.remove_ensures(i);
    let u0 = v0.unclaimed.len() as int;
    assert forall|j: int| 0 <= j < v1.branches.len() implies branch_wf(
        #[trigger] v1.branches[j],
    ) by {
        let j0: int = if j < i {
            j
        } else {
            j + 1
        };
        assert(v1.branches[j] == v0.branches[j0]);
    }
    assert forall|j: int, j2: int| 0 <= j < j2 < v1.branches.len() implies (
    #[trigger] v1.branches[j].rank) < (#[trigger] v1.branches[j2].rank) by {
        let j0: int = if j < i {
            j
        } else {
            j + 1
        };
        let j20: int = if j2 < i {
            j2
        } else {
            j2 + 1
        };
        assert(v1.branches[j] == v0.branches[j0]);
        assert(v1.branches[j2] == v0.branches[j20]);
    }
    assert forall|j: int, j2: int|
        0 <= j < v1.branches.len() && 0 <= j2 < v1.branches.len() && j != j2 implies (
    #[trigger] v1.branches[j].id) != (#[trigger] v1.branches[j2].id) by {
        let j0: int = if j < i {
            j
        } else {
            j + 1
        };
        let j20: int = if j2 < i {
            j2
        } else {
            j2 + 1
        };
        assert(v1.branches[j] == v0.branches[j0]);
        assert(v1.branches[j2] == v0.branches[j20]);
    }
    assert forall|j: int, j2: int|
        0 <= j < v1.branches.len() && 0 <= j2 < v1.branches.len() && j != j2 implies (
    #[trigger] v1.branches[j].name)@ != (#[trigger] v1.branches[j2].name)@ by {
        let j0: int = if j < i {
            j
        } else {
            j + 1
        };
        let j20: int = if j2 < i {
            j2
        } else {
            j2 + 1
        };
        assert(v1.branches[j] == v0.branches[j0]);
        assert(v1.branches[j2] == v0.branches[j20]);
    }
    assert forall|j: int| 0 <= j < v1.branches.len() implies (#[trigger] v1.branches[j].rank)
        < v1.next_rank && (#[trigger] v1.branches[j].id) < v1.next_id by {
        let j0: int = if j < i {
            j
        } else {
            j + 1
        };
        assert(v1.branches[j] == v0.branches[j0]);
    }
    assert forall|j: int| 0 <= j < v1.branches.len() implies (#[trigger] v1.branches[j].id)
        < v1.next_id by {
        let j0: int = if j < i {
            j
        } else {
            j + 1
        };
        assert(v1.branches[j] == v0.branches[j0]);
    }
    assert(hunks_wf(v1.unclaimed)) by {
        assert(branch_wf(v0.branches[i]));
        assert forall|l: int| 0 <= l < v1.unclaimed.len() implies hunk_wf(
            #[trigger] v1.unclaimed[l],
        ) by {
            if l >= u0 {
                assert(v1.unclaimed[l] == v0.branches[i].ownership@[l - u0]);
            }
        }
    }
    assert forall|l: int, l2: int|
        0 <= l < v1.unclaimed.len() && 0 <= l2 < v1.unclaimed.len() && l != l2
        implies !hunks_overlap(#[trigger] v1.unclaimed[l], #[trigger] v1.unclaimed[l2]) by {
        if l < u0 && l2 < u0 {
            assert(!hunks_overlap(v0.unclaimed[l], v0.unclaimed[l2]));
        } else if l < u0 && l2 >= u0 {
            assert(!hunks_overlap(v0.branches[i].ownership@[l2 - u0], v0.unclaimed[l]));
            assert(hunks_overlap(v1.unclaimed[l], v1.unclaimed[l2]) == hunks_overlap(
                v1.unclaimed[l2],
                v1.unclaimed[l],
            ));
        } else if l >= u0 && l2 < u0 {
            assert(!hunks_overlap(v0.branches[i].ownership@[l - u0], v0.unclaimed[l2]));
        } else {
            assert(!hunks_overlap(
                v0.branches[i].ownership@[l - u0],
                v0.branches[i].ownership@[l2 - u0],
            ));
        }
    }
    assert forall|a: int, k: int, b: int, l: int|
        0 <= a < v1.branches.len() && 0 <= k < v1.branches[a].ownership@.len() && 0 <= b
            < v1.branches.len() && 0 <= l < v1.branches[b].ownership@.len() && (a != b || k
            != l) implies !hunks_overlap(
        v1.branches[a].ownership@[k],
        v1.branches[b].ownership@[l],
    ) by {
        let a0: int = if a < i {
            a
        } else {
            a + 1
        };
        let b0: int = if b < i {
            b
        } else {
            b + 1
        };
        assert(v1.branches[a] == v0.branches[a0]);
        assert(v1.branches[b] == v0.branches[b0]);
        assert(!hunks_overlap(v0.branches[a0].ownership@[k], v0.branches[b0].ownership@[l]));
    }
    assert forall|a: int, k: int, l: int|
        0 <= a < v1.branches.len() && 0 <= k < v1.branches[a].ownership@.len() && 0 <= l
            < v1.unclaimed.len() implies !hunks_overlap(
        v1.branches[a].ownership@[k],
        v1.unclaimed[l],
    ) by {
        let a0: int = if a < i {
            a
        } else {
            a + 1
        };
        assert(v1.branches[a] == v0.branches[a0]);
        if l < u0 {
            assert(!hunks_overlap(v0.branches[a0].ownership@[k], v0.unclaimed[l]));
        } else {
            assert(v1.unclaimed[l] == v0.branches[i].ownership@[l - u0]);
            assert(a0 != i);
            assert(!hunks_overlap(v0.branches[a0].ownership@[k], v0.branches[i].ownership@[l - u0]));
        }
    }
}

/// Replacing one branch record with one of the same id, name, rank and
/// claims (or no claims at all), flagged so that only an applied branch
/// is conflicted, preserves the invariant.
pub proof fn lemma_update_one_inv(v0: CtlView, v1: CtlView, i: int)
    requires
        inv(v0),
        0 <= i < v0.branches.len(),
        v1.branches.len() == v0.branches.len(),
        forall|j: int|
            0 <= j < v0.branches.len() && j != i ==> v1.branches[j] == #[trigger] v0.branches[j],
        v1.branches[i].id == v0.branches[i].id,
        v1.branches[i].name == v0.branches[i].name,
        v1.branches[i].rank == v0.branches[i].rank,
        v1.branches[i].ownership@ == v0.branches[i].ownership@ || v1.branches[i].ownership@.len()
            == 0,
        !v1.branches[i].applied ==> !v1.branches[i].conflicted,
        v1.unclaimed == v0.unclaimed,
        v1.next_id == v0.next_id,
        v1.next_rank == v0.next_rank,
    ensures
        inv(v1),
{
    assert(branch_wf(v0.branches[i]));
    assert forall|j: int| 0 <= j < v1.branches.len() implies branch_wf(
        #[trigger] v1.branches[j],
    ) by {
        if j != i {
            assert(v1.branches[j] == v0.branches[j]);
        }
    }
    assert forall|j: int, j2: int| 0 <= j < j2 < v1.branches.len() implies (
    #[trigger] v1.branches[j].rank) < (#[trigger] v1.branches[j2].rank) by {
        if j != i {
            assert(v1.branches[j] == v0.branches[j]);
        }
        if j2 != i {
            assert(v1.branches[j2] == v0.branches[j2]);
        }
    }
    assert forall|j: int, j2: int|
        0 <= j < v1.branches.len() && 0 <= j2 < v1.branches.len() && j != j2 implies (
    #[trigger] v1.branches[j].id) != (#[trigger] v1.branches[j2].id) by {
        if j != i {
            assert(v1.branches[j] == v0.branches[j]);
        }
        if j2 != i {
            assert(v1.branches[j2] == v0.branches[j2]);
        }
    }
    assert forall|j: int, j2: int|
        0 <= j < v1.branches.len() && 0 <= j2 < v1.branches.len() && j != j2 implies (
    #[trigger] v1.branches[j].name)@ != (#[trigger] v1.branches[j2].name)@ by {
        if j != i {
            assert(v1.branches[j] == v0.branches[j]);
        }
        if j2 != i {
            assert(v1.branches[j2] == v0.branches[j2]);
        }
    }
    assert forall|j: int| 0 <= j < v1.branches.len() implies (#[trigger] v1.branches[j].rank)
        < v1.next_rank by {
        if j != i {
            assert(v1.branches[j] == v0.branches[j]);
        }
    }
    assert forall|j: int| 0 <= j < v1.branches.len() implies (#[trigger] v1.branches[j].id)
        < v1.next_id by {
        if j != i {
            assert(v1.branches[j] == v0.branches[j]);
        }
    }
    assert forall|a: int, k: int, b: int, l: int|
        0 <= a < v1.branches.len() && 0 <= k < v1.branches[a].ownership@.len() && 0 <= b
            < v1.branches.len() && 0 <= l < v1.branches[b].ownership@.len() && (a != b || k
            != l) implies !hunks_overlap(
        v1.branches[a].ownership@[k],
        v1.branches[b].ownership@[l],
    ) by {
        if a != i {
            assert(v1.branches[a] == v0.branches[a]);
        }
        if b != i {
            assert(v1.branches[b] == v0.branches[b]);
        }
        assert(v1.branches[a].ownership@[k] == v0.branches[a].ownership@[k]);
        assert(v1.branches[b].ownership@[l] == v0.branches[b].ownership@[l]);
        assert(!hunks_overlap(v0.branches[a].ownership@[k], v0.branches[b].ownership@[l]));
    }
    assert forall|a: int, k: int, l: int|
        0 <= a < v1.branches.len() && 0 <= k < v1.branches[a].ownership@.len() && 0 <= l
            < v1.unclaimed.len() implies !hunks_overlap(
        v1.branches[a].ownership@[k],
        v1.unclaimed[l],
    ) by {
        if a != i {
            assert(v1.branches[a] == v0.branches[a]);
        }
        assert(v1.branches[a].ownership@[k] == v0.branches[a].ownership@[k]);
        assert(!hunks_overlap(v0.branches[a].ownership@[k], v0.unclaimed[l]));
    }
}

/// Whether branch `i`'s owned hunks collide with the regions the
/// upstream changed: if so the branch cannot be combined cleanly with
/// the current base and is flagged conflicted when (re)applied.
pub open spec fn branch_base_conflict(v: CtlView, i: int) -> bool {
    match v.base {
        Some(b) => seqs_overlap(v.branches[i].ownership@, b.drift@),
        None => false,
    }
}

/// State after applying branch `i`: the branch is applied, and it is
/// conflicted exactly when its hunks collide with the upstream drift.
/// Nothing else moves; in particular its ownership claims are kept.
pub open spec fn apply_next(v: CtlView, i: int) -> CtlView {
    CtlView {
        branches: v.branches.update(
            i,
            VirtualBranch {
                applied: true,
                conflicted: branch_base_conflict(v, i),
                ..v.branches[i]
            },
        ),
        ..v
    }
}

/// State after unapplying branch `i`: the branch is out of the working
/// directory and any conflict it had is cleared.  Its claims are kept.
pub open spec fn unapply_next(v: CtlView, i: int) -> CtlView {
    CtlView {
        branches: v.branches.update(
            i,
            VirtualBranch { applied: false, conflicted: false, ..v.branches[i] },
        ),
        ..v
    }
}

/// Whether the hunk `h` is materialized in the working directory:
/// unclaimed changes always are, owned changes exactly when their
/// branch is applied.
pub open spec fn hunk_materialized(v: CtlView, h: Hunk) -> bool {
    v.unclaimed.contains(h) || exists|i: int|
        0 <= i < v.branches.len() && (#[trigger] v.branches[i]).applied
            && v.branches[i].ownership@.contains(h)
}

/// Applying a branch and then unapplying it restores the controller
/// state — and with it the set of materialized hunks, so the working
/// directory content those hunks describe — to exactly what it was
/// before the apply.
pub proof fn lemma_apply_unapply_restores(v: CtlView, i: int)
    requires
        inv(v),
        0 <= i < v.branches.len(),
        !v.branches[i].applied,
    ensures
        unapply_next(apply_next(v, i), i) == v,
        forall|h: Hunk| hunk_materialized(unapply_next(apply_next(v, i), i), h)
            == hunk_materialized(v, h),
{
    let v2 = unapply_next(apply_next(v, i), i);
    assert(branch_wf(v.branches[i]));
    assert(v2.branches[i] == v.branches[i]);
    assert(v2.branches =~= v.branches);
    assert(v2 =~= v);
}

/// A branch record after the base moved: an applied branch is
/// re-applied against the new baseline, so its conflicted flag is
/// recomputed from the fresh upstream drift; an unapplied branch is
/// untouched.  Ownership claims are kept either way.
pub open spec fn refreshed(b: VirtualBranch, drift: Seq<Hunk>) -> VirtualBranch {
    if b.applied {
        VirtualBranch { conflicted: seqs_overlap(b.ownership@, drift), ..b }
    } else {
        b
    }
}

/// State after `update_base_branch` saw the fetch report `u`.  When the
/// upstream tip has not moved, nothing changes at all.  When it has,
/// the base record takes the fetched tip, counts and drift, and every
/// applied branch is re-applied against the new baseline.
pub open spec fn ub_next(v: CtlView, u: BaseUpdate) -> CtlView
    recommends
        v.base is Some,
{
    let b = v.base->0;
    if b.tip == u.tip {
        v
    } else {
        CtlView {
            base: Some(
                BaseBranch {
                    remote_name: b.remote_name,
                    tip: u.tip,
                    fork_point: b.fork_point,
                    ahead: u.ahead,
                    behind: u.behind,
                    drift: u.drift,
                },
            ),
            branches: Seq::new(v.branches.len(), |i: int| refreshed(v.branches[i], u.drift@)),
            ..v
        }
    }
}

/// A base update preserves the invariant: every branch keeps its id,
/// name, rank and claims, and only applied branches can come out
/// flagged conflicted.
proof fn lemma_ub_next_inv(v0: CtlView, u: BaseUpdate)
    requires
        inv(v0),
        v0.base is Some,
    ensures
        inv(ub_next(v0, u)),
{
    let v1 = ub_next(v0, u);
    if v0.base->0.tip != u.tip {
        assert forall|j: int| 0 <= j < v1.branches.len() implies {
            &&& #[trigger] v1.branches[j] == refreshed(v0.branches[j], u.drift@)
            &&& v1.branches[j].id == v0.branches[j].id
            &&& v1.branches[j].name == v0.branches[j].name
            &&& v1.branches[j].rank == v0.branches[j].rank
            &&& v1.branches[j].ownership == v0.branches[j].ownership
            &&& branch_wf(v1.branches[j])
        } by {
            assert(branch_wf(v0.branches[j]));
        }
        assert forall|a: int, k: int, b: int, l: int|
            0 <= a < v1.branches.len() && 0 <= k < v1.branches[a].ownership@.len() && 0 <= b
                < v1.branches.len() && 0 <= l < v1.branches[b].ownership@.len() && (a != b || k
                != l) implies !hunks_overlap(
            v1.branches[a].ownership@[k],
            v1.branches[b].ownership@[l],
        ) by {
            assert(v1.branches[a].ownership == v0.branches[a].ownership);
            assert(v1.branches[b].ownership == v0.branches[b].ownership);
            assert(!hunks_overlap(v0.branches[a].ownership@[k], v0.branches[b].ownership@[l]));
        }
        assert forall|a: int, k: int, l: int|
            0 <= a < v1.branches.len() && 0 <= k < v1.branches[a].ownership@.len() && 0 <= l
                < v1.unclaimed.len() implies !hunks_overlap(
            v1.branches[a].ownership@[k],
            v1.unclaimed[l],
        ) by {
            assert(v1.branches[a].ownership == v0.branches[a].ownership);
            assert(!hunks_overlap(v0.branches[a].ownership@[k], v0.unclaimed[l]));
        }
    }
}

/// Number of leading branches whose rank is below `r`: where a record
/// of rank `r` belongs in a rank-sorted branch list.
pub open spec fn rank_pos(bs: Seq<VirtualBranch>, r: u64) -> int
    decreases bs.len(),
{
    if bs.len() == 0 {
        0
    } else if bs[0].rank < r {
        1 + rank_pos(bs.drop_first(), r)
    } else {
        0
    }
}

/// On a rank-sorted list, `rank_pos` splits the list into the strictly
/// smaller ranks and the rest.
pub proof fn lemma_rank_pos_props(bs: Seq<VirtualBranch>, r: u64)
    requires
        forall|i: int, j: int|
            0 <= i < j < bs.len() ==> (#[trigger] bs[i].rank) < (#[trigger] bs[j].rank),
    ensures
        0 <= rank_pos(bs, r) <= bs.len(),
        forall|q: int| 0 <= q < rank_pos(bs, r) ==> (#[trigger] bs[q].rank) < r,
        forall|q: int| rank_pos(bs, r) <= q < bs.len() ==> (#[trigger] bs[q].rank) >= r,
    decreases bs.len(),
{
    if bs.len() > 0 {
        let rest = bs.drop_first();
        assert(forall|i: int, j: int|
            0 <= i < j < rest.len() ==> (#[trigger] rest[i].rank) < (#[trigger] rest[j].rank));
        lemma_rank_pos_props(rest, r);
        if bs[0].rank < r {
            let p = rank_pos(bs, r);
            assert forall|q: int| 0 <= q < p implies (#[trigger] bs[q].rank) < r by {
                if q > 0 {
                    assert(rest[q - 1].rank < r);
                }
            }
            assert forall|q: int| p <= q < bs.len() implies (#[trigger] bs[q].rank) >= r by {
                assert(rest[q - 1].rank >= r);
            }
        }
    }
}

/// The branch record after an update request is applied to it: fields
/// named by the request are replaced, the rest are kept.
pub open spec fn upd_branch(b: VirtualBranch, req: BranchUpdateRequest) -> VirtualBranch {
    VirtualBranch {
        name: match req.name {
            Some(nm) => nm,
            None => b.name,
        },
        rank: match req.order {
            Some(o) => o,
            None => b.rank,
        },
        ownership: match req.ownership {
            Some(l) => l,
            None => b.ownership,
        },
        ..b
    }
}

/// The branch list after record `i` became `b`: replaced in place when
/// the rank is kept, or moved to its new rank's sorted position.
pub open spec fn reposition(
    bs: Seq<VirtualBranch>,
    i: int,
    b: VirtualBranch,
    order: Option<u64>,
) -> Seq<VirtualBranch> {
    match order {
        None => bs.update(i, b),
        Some(o) => bs.remove(i).insert(rank_pos(bs.remove(i), o), b),
    }
}

/// A requested replacement claim list for branch `i` is acceptable
/// when its hunks are pairwise disjoint and each one is a hunk the
/// branch already owns or an unclaimed hunk.  Anything else would
/// collide with another branch's claim or invent a hunk.
pub open spec fn own_edit_ok(v: CtlView, i: int, l: Seq<Hunk>) -> bool {
    &&& hunks_disjoint(l)
    &&& forall|k: int|
        0 <= k < l.len() ==> v.branches[i].ownership@.contains(#[trigger] l[k])
            || v.unclaimed.contains(#[trigger] l[k])
}

/// The unclaimed set after branch `i` took the requested claim list:
/// hunks the branch took leave the unclaimed set, and hunks it no
/// longer claims fall back to it.  Without an ownership edit nothing
/// moves.
pub open spec fn upd_unclaimed(v: CtlView, i: int, req: BranchUpdateRequest) -> Seq<Hunk> {
    match req.ownership {
        Some(l) => v.unclaimed.filter(|h: Hunk| !l@.contains(h)) + v.branches[i].ownership@.filter(
            |h: Hunk| !l@.contains(h),
        ),
        None => v.unclaimed,
    }
}

/// A hunk is claimed somewhere: by some branch or as unclaimed.
pub open spec fn claimed_value(v: CtlView, h: Hunk) -> bool {
    v.unclaimed.contains(h) || exists|i: int|
        0 <= i < v.branches.len() && (#[trigger] v.branches[i]).ownership@.contains(h)
}

/// Under the invariant two distinct claimed hunk values never overlap:
/// they sit at distinct claim positions, and all claim positions are
/// pairwise disjoint.
proof fn lemma_distinct_claims_disjoint(v: CtlView, h1: Hunk, h2: Hunk)
    requires
        inv(v),
        claimed_value(v, h1),
        claimed_value(v, h2),
        h1 != h2,
    ensures
        !hunks_overlap(h1, h2),
{
    if v.unclaimed.contains(h1) {
        let m1 = choose|m: int| 0 <= m < v.unclaimed.len() && v.unclaimed[m] == h1;
        if v.unclaimed.contains(h2) {
            let m2 = choose|m: int| 0 <= m < v.unclaimed.len() && v.unclaimed[m] == h2;
            assert(!hunks_overlap(v.unclaimed[m1], v.unclaimed[m2]));
        } else {
            let i2 = choose|i: int|
                0 <= i < v.branches.len() && (#[trigger] v.branches[i]).ownership@.contains(h2);
            let k2 = choose|k: int|
                0 <= k < v.branches[i2].ownership@.len() && v.branches[i2].ownership@[k] == h2;
            assert(!hunks_overlap(v.branches[i2].ownership@[k2], v.unclaimed[m1]));
        }
    } else {
        let i1 = choose|i: int|
            0 <= i < v.branches.len() && (#[trigger] v.branches[i]).ownership@.contains(h1);
        let k1 = choose|k: int|
            0 <= k < v.branches[i1].ownership@.len() && v.branches[i1].ownership@[k] == h1;
        if v.unclaimed.contains(h2) {
            let m2 = choose|m: int| 0 <= m < v.unclaimed.len() && v.unclaimed[m] == h2;
            assert(!hunks_overlap(v.branches[i1].ownership@[k1], v.unclaimed[m2]));
        } else {
            let i2 = choose|i: int|
                0 <= i < v.branches.len() && (#[trigger] v.branches[i]).ownership@.contains(h2);
            let k2 = choose|k: int|
                0 <= k < v.branches[i2].ownership@.len() && v.branches[i2].ownership@[k] == h2;
            assert(!hunks_overlap(v.branches[i1].ownership@[k1], v.branches[i2].ownership@[k2]));
        }
    }
}

/// Under the invariant a hunk claimed by branch `i` is claimed nowhere
/// else: not by another branch and not as unclaimed.
proof fn lemma_claim_unique(v: CtlView, i: int, h: Hunk)
    requires
        inv(v),
        0 <= i < v.branches.len(),
        v.branches[i].ownership@.contains(h),
    ensures
        forall|j: int|
            0 <= j < v.branches.len() && j != i ==> !(#[trigger] v.branches[j]).ownership@.contains(
                h,
            ),
        !v.unclaimed.contains(h),
{
    let k = choose|k: int| 0 <= k < v.branches[i].ownership@.len() && v.branches[i].ownership@[k]
        == h;
    assert(branch_wf(v.branches[i]));
    assert(hunk_wf(h));
    assert forall|j: int|
        0 <= j < v.branches.len() && j != i implies !(#[trigger] v.branches[j]).ownership@.contains(
        h,
    ) by {
        if v.branches[j].ownership@.contains(h) {
            let k2 = choose|k2: int|
                0 <= k2 < v.branches[j].ownership@.len() && v.branches[j].ownership@[k2] == h;
            assert(!hunks_overlap(v.branches[i].ownership@[k], v.branches[j].ownership@[k2]));
            assert(false);
        }
    }
    if v.unclaimed.contains(h) {
        let m = choose|m: int| 0 <= m < v.unclaimed.len() && v.unclaimed[m] == h;
        assert(!hunks_overlap(v.branches[i].ownership@[k], v.unclaimed[m]));
        assert(false);
    }
}

/// An accepted update preserves the invariant: the updated record
/// keeps its id, lands at its rank's sorted position, and an accepted
/// claim edit only exchanges hunks between the branch and the
/// unclaimed set, so all claims stay pairwise disjoint.
proof fn lemma_update_branch_inv(v0: CtlView, v1: CtlView, i: int, req: BranchUpdateRequest)
    requires
        inv(v0),
        0 <= i < v0.branches.len(),
        req.ownership matches Some(l) ==> hunks_wf(l@) && own_edit_ok(v0, i, l@),
        req.name matches Some(nm) ==> nm@.len() > 0 && (forall|j: int|
            0 <= j < v0.branches.len() && j != i ==> (#[trigger] v0.branches[j].name)@ != nm@),
        req.order matches Some(o) ==> forall|j: int|
            0 <= j < v0.branches.len() && j != i ==> (#[trigger] v0.branches[j].rank) != o,
        v1.branches == reposition(v0.branches, i, upd_branch(v0.branches[i], req), req.order),
        v1.unclaimed == upd_unclaimed(v0, i, req),
        v1.next_id == v0.next_id,
        v1.next_rank as int == (match req.order {
            Some(o) => if o >= v0.next_rank {
                o + 1
            } else {
                v0.next_rank as int
            },
            None => v0.next_rank as int,
        }),
    ensures
        inv(v1),
{
    let b0 = v0.branches[i];
    let b1 = upd_branch(b0, req);
    let bs1 = v0.branches.remove(i);
    let n0 = v0.branches.len() as int;
    v0.branches.remove_ensures(i);
    assert(branch_wf(b0));
    assert forall|a: int, b: int| 0 <= a < b < bs1.len() implies (#[trigger] bs1[a].rank) < (
    #[trigger] bs1[b].rank) by {
        let av = if a < i {
            a
        } else {
            a + 1
        };
        let bv = if b < i {
            b
        } else {
            b + 1
        };
        assert(bs1[a] == v0.branches[av]);
        assert(bs1[b] == v0.branches[bv]);
    }
    let p: int = match req.order {
        Some(o) => rank_pos(bs1, o),
        None => i,
    };
    if req.order is Some {
        lemma_rank_pos_props(bs1, req.order->0);
    }
    assert(0 <= p <= bs1.len());
    if req.order is None {
        assert(v1.branches =~= bs1.insert(i, b1));
    }
    assert(v1.branches == bs1.insert(p, b1));
    bs1.insert_ensures(p, b1);
    assert(v1.branches.len() == n0);
    assert(v1.branches[p] == b1);
    assert forall|q: int| 0 <= q < v1.branches.len() && q != p implies v1.branches[q] == v0.branches[
        map_src(q, p, i)] && map_src(q, p, i) != i && 0 <= map_src(q, p, i) < n0 by {
        let q1 = if q < p {
            q
        } else {
            q - 1
        };
        assert(v1.branches[q] == bs1[q1]);
        assert(bs1[q1] == v0.branches[map_src(q, p, i)]);
    }
    assert forall|q: int| 0 <= q < p implies (#[trigger] v1.branches[q].rank) < b1.rank by {
        match req.order {
            Some(o) => {
                assert(bs1[q].rank < o);
            },
            None => {
                assert(v1.branches[q] == v0.branches[q]);
            },
        }
    }
    assert forall|q: int| p < q < v1.branches.len() implies (#[trigger] v1.branches[q].rank)
        > b1.rank by {
        let qv = map_src(q, p, i);
        assert(v1.branches[q] == v0.branches[qv]);
        match req.order {
            Some(o) => {
                assert(bs1[q - 1].rank >= o);
                assert(v0.branches[qv].rank != o);
            },
            None => {
                assert(qv == q);
            },
        }
    }
    // the metadata conjuncts
    assert forall|q: int| 0 <= q < v1.branches.len() implies branch_wf(
        #[trigger] v1.branches[q],
    ) by {
        if q != p {
            assert(v1.branches[q] == v0.branches[map_src(q, p, i)]);
        }
    }
    assert forall|q: int, q2: int| 0 <= q < q2 < v1.branches.len() implies (
    #[trigger] v1.branches[q].rank) < (#[trigger] v1.branches[q2].rank) by {
        if q != p && q2 != p {
            let qv = map_src(q, p, i);
            let q2v = map_src(q2, p, i);
            assert(v1.branches[q] == v0.branches[qv]);
            assert(v1.branches[q2] == v0.branches[q2v]);
            assert(qv < q2v);
        }
    }
    assert forall|q: int, q2: int|
        0 <= q < v1.branches.len() && 0 <= q2 < v1.branches.len() && q != q2 implies (
    #[trigger] v1.branches[q].id) != (#[trigger] v1.branches[q2].id) by {
        if q == p {
            assert(v1.branches[q2] == v0.branches[map_src(q2, p, i)]);
        } else if q2 == p {
            assert(v1.branches[q] == v0.branches[map_src(q, p, i)]);
        } else {
            assert(v1.branches[q] == v0.branches[map_src(q, p, i)]);
            assert(v1.branches[q2] == v0.branches[map_src(q2, p, i)]);
        }
    }
    assert forall|q: int, q2: int|
        0 <= q < v1.branches.len() && 0 <= q2 < v1.branches.len() && q != q2 implies (
    #[trigger] v1.branches[q].name)@ != (#[trigger] v1.branches[q2].name)@ by {
        if q == p {
            assert(v1.branches[q2] == v0.branches[map_src(q2, p, i)]);
        } else if q2 == p {
            assert(v1.branches[q] == v0.branches[map_src(q, p, i)]);
        } else {
            assert(v1.branches[q] == v0.branches[map_src(q, p, i)]);
            assert(v1.branches[q2] == v0.branches[map_src(q2, p, i)]);
        }
    }
    assert forall|q: int| 0 <= q < v1.branches.len() implies (#[trigger] v1.branches[q].rank)
        < v1.next_rank by {
        if q != p {
            assert(v1.branches[q] == v0.branches[map_src(q, p, i)]);
        }
    }
    assert forall|q: int| 0 <= q < v1.branches.len() implies (#[trigger] v1.branches[q].id)
        < v1.next_id by {
        if q != p {
            assert(v1.branches[q] == v0.branches[map_src(q, p, i)]);
        }
    }
    // the claim conjuncts
    match req.ownership {
        None => {
            assert(v1.unclaimed == v0.unclaimed);
            assert(b1.ownership == b0.ownership);
            assert forall|a: int, k: int, b: int, l2: int|
                0 <= a < v1.branches.len() && 0 <= k < v1.branches[a].ownership@.len() && 0 <= b
                    < v1.branches.len() && 0 <= l2 < v1.branches[b].ownership@.len() && (a != b || k
                    != l2) implies !hunks_overlap(
                v1.branches[a].ownership@[k],
                v1.branches[b].ownership@[l2],
            ) by {
                let av = if a == p {
                    i
                } else {
                    map_src(a, p, i)
                };
                let bv = if b == p {
                    i
                } else {
                    map_src(b, p, i)
                };
                assert(v1.branches[a].ownership == v0.branches[av].ownership);
                assert(v1.branches[b].ownership == v0.branches[bv].ownership);
                assert(av != bv || a == b);
                assert(!hunks_overlap(
                    v0.branches[av].ownership@[k],
                    v0.branches[bv].ownership@[l2],
                ));
            }
            assert forall|a: int, k: int, l2: int|
                0 <= a < v1.branches.len() && 0 <= k < v1.branches[a].ownership@.len() && 0 <= l2
                    < v1.unclaimed.len() implies !hunks_overlap(
                v1.branches[a].ownership@[k],
                v1.unclaimed[l2],
            ) by {
                let av = if a == p {
                    i
                } else {
                    map_src(a, p, i)
                };
                assert(v1.branches[a].ownership == v0.branches[av].ownership);
                assert(!hunks_overlap(v0.branches[av].ownership@[k], v0.unclaimed[l2]));
            }
        },
        Some(lv) => {
            let l = lv@;
            let own0 = b0.ownership@;
            let uncl0 = v0.unclaimed;
            let pu = |h: Hunk| !l.contains(h);
            let unclf = uncl0.filter(pu);
            let ownf = own0.filter(pu);
            let nu = v1.unclaimed;
            assert(nu == unclf + ownf);
            assert(hunks_wf(own0));
            assert forall|k: int, k2: int|
                0 <= k < own0.len() && 0 <= k2 < own0.len() && k != k2 implies !hunks_overlap(
                #[trigger] own0[k],
                #[trigger] own0[k2],
            ) by {
                assert(!hunks_overlap(v0.branches[i].ownership@[k], v0.branches[i].ownership@[k2]));
            }
            lemma_disjoint_no_dup(own0);
            lemma_disjoint_no_dup(uncl0);
            lemma_filter_no_dup(own0, pu);
            lemma_filter_no_dup(uncl0, pu);
            assert forall|k: int| 0 <= k < l.len() implies claimed_value(v0, #[trigger] l[k])
                && hunk_wf(l[k]) by {
                if own0.contains(l[k]) {
                    assert(0 <= i < v0.branches.len() && v0.branches[i].ownership@.contains(l[k]));
                    let m = choose|m: int| 0 <= m < own0.len() && own0[m] == l[k];
                    assert(hunk_wf(own0[m]));
                } else {
                    assert(uncl0.contains(l[k]));
                    let m = choose|m: int| 0 <= m < uncl0.len() && uncl0[m] == l[k];
                    assert(hunk_wf(uncl0[m]));
                }
            }
            assert forall|m: int| 0 <= m < nu.len() implies claimed_value(v0, #[trigger] nu[m])
                && !l.contains(nu[m]) && hunk_wf(nu[m]) && (uncl0.contains(nu[m])
                || v0.branches[i].ownership@.contains(nu[m])) by {
                if m < unclf.len() {
                    assert(nu[m] == unclf[m]);
                    assert(unclf.contains(unclf[m]));
                    uncl0.lemma_filter_contains_rev(pu, unclf[m]);
                    uncl0.lemma_filter_pred(pu, m);
                    let mm = choose|mm: int| 0 <= mm < uncl0.len() && uncl0[mm] == nu[m];
                    assert(hunk_wf(uncl0[mm]));
                } else {
                    assert(nu[m] == ownf[m - unclf.len()]);
                    assert(ownf.contains(ownf[m - unclf.len()]));
                    own0.lemma_filter_contains_rev(pu, ownf[m - unclf.len()]);
                    own0.lemma_filter_pred(pu, m - unclf.len());
                    assert(0 <= i < v0.branches.len() && v0.branches[i].ownership@.contains(nu[m]));
                    let mm = choose|mm: int| 0 <= mm < own0.len() && own0[mm] == nu[m];
                    assert(hunk_wf(own0[mm]));
                }
            }
            assert forall|m: int, m2: int|
                0 <= m < nu.len() && 0 <= m2 < nu.len() && m != m2 implies nu[m] != nu[m2] by {
                let u = unclf.len() as int;
                if m < u && m2 < u {
                    assert(unclf[m] != unclf[m2]);
                } else if m >= u && m2 >= u {
                    assert(ownf[m - u] != ownf[m2 - u]);
                } else {
                    let mu = if m < u {
                        m
                    } else {
                        m2
                    };
                    let mo = if m < u {
                        m2
                    } else {
                        m
                    };
                    assert(nu[mu] == unclf[mu]);
                    assert(nu[mo] == ownf[mo - u]);
                    if nu[mu] == nu[mo] {
                        assert(unclf.contains(unclf[mu]));
                        uncl0.lemma_filter_contains_rev(pu, unclf[mu]);
                        assert(ownf.contains(ownf[mo - u]));
                        own0.lemma_filter_contains_rev(pu, ownf[mo - u]);
                        lemma_claim_unique(v0, i, nu[mo]);
                        assert(false);
                    }
                }
            }
            assert forall|m: int, m2: int|
                0 <= m < nu.len() && 0 <= m2 < nu.len() && m != m2 implies !hunks_overlap(
                #[trigger] nu[m],
                #[trigger] nu[m2],
            ) by {
                lemma_distinct_claims_disjoint(v0, nu[m], nu[m2]);
            }
            assert forall|a: int, k: int, b: int, l2: int|
                0 <= a < v1.branches.len() && 0 <= k < v1.branches[a].ownership@.len() && 0 <= b
                    < v1.branches.len() && 0 <= l2 < v1.branches[b].ownership@.len() && (a != b || k
                    != l2) implies !hunks_overlap(
                v1.branches[a].ownership@[k],
                v1.branches[b].ownership@[l2],
            ) by {
                let ha = v1.branches[a].ownership@[k];
                let hb = v1.branches[b].ownership@[l2];
                if a == p && b == p {
                    assert(!hunks_overlap(l[k], l[l2]));
                } else if a == p && b != p {
                    let bv = map_src(b, p, i);
                    assert(v1.branches[b] == v0.branches[bv]);
                    assert(v0.branches[bv].ownership@.contains(hb));
                    lemma_claim_unique(v0, bv, hb);
                    assert(claimed_value(v0, hb));
                    assert(ha != hb);
                    lemma_distinct_claims_disjoint(v0, ha, hb);
                } else if a != p && b == p {
                    let av = map_src(a, p, i);
                    assert(v1.branches[a] == v0.branches[av]);
                    assert(v0.branches[av].ownership@.contains(ha));
                    lemma_claim_unique(v0, av, ha);
                    assert(claimed_value(v0, ha));
                    assert(ha != hb);
                    lemma_distinct_claims_disjoint(v0, ha, hb);
                } else {
                    let av = map_src(a, p, i);
                    let bv = map_src(b, p, i);
                    assert(v1.branches[a] == v0.branches[av]);
                    assert(v1.branches[b] == v0.branches[bv]);
                    assert(!hunks_overlap(
                        v0.branches[av].ownership@[k],
                        v0.branches[bv].ownership@[l2],
                    ));
                }
            }
            assert forall|a: int, k: int, l2: int|
                0 <= a < v1.branches.len() && 0 <= k < v1.branches[a].ownership@.len() && 0 <= l2
                    < nu.len() implies !hunks_overlap(v1.branches[a].ownership@[k], nu[l2]) by {
                let ha = v1.branches[a].ownership@[k];
                let hu = nu[l2];
                if a == p {
                    assert(ha == l[k]);
                    assert(!l.contains(hu));
                    assert(ha != hu);
                    lemma_distinct_claims_disjoint(v0, ha, hu);
                } else {
                    let av = map_src(a, p, i);
                    assert(v1.branches[a] == v0.branches[av]);
                    assert(v0.branches[av].ownership@.contains(ha));
                    lemma_claim_unique(v0, av, ha);
                    assert(claimed_value(v0, ha));
                    assert(ha != hu);
                    lemma_distinct_claims_disjoint(v0, ha, hu);
                }
            }
        },
    }
}

/// Where an element of the repositioned list came from: position `q`
/// of the new list (other than the inserted position `p`) holds the
/// old list's element at this index, skipping the removed index `i`.
pub open spec fn map_src(q: int, p: int, i: int) -> int {
    let q1 = if q < p {
        q
    } else {
        q - 1
    };
    if q1 < i {
        q1
    } else {
        q1 + 1
    }
}

/// Reconciliation preserves the invariant: the new claim lists hold
/// only fresh diff hunks, each fresh hunk goes to at most one list,
/// and distinct fresh hunks never overlap, so all claims stay pairwise
/// disjoint; branch metadata is untouched.
proof fn lemma_reconcile_inv(v0: CtlView, v1: CtlView, hunks: Seq<Hunk>)
    requires
        inv(v0),
        hunks_wf(hunks),
        hunks_disjoint(hunks),
        v1.branches.len() == v0.branches.len(),
        forall|i: int|
            0 <= i < v1.branches.len() ==> (#[trigger] v1.branches[i]).same_meta(v0.branches[i]),
        forall|i: int|
            0 <= i < v1.branches.len() ==> (#[trigger] v1.branches[i]).ownership@ == hunks.filter(
                |h: Hunk| hunk_owner(v0.branches, hunks, h) == Some(i),
            ),
        v1.unclaimed == hunks.filter(|h: Hunk| hunk_owner(v0.branches, hunks, h) is None),
        v1.next_id == v0.next_id,
        v1.next_rank == v0.next_rank,
    ensures
        inv(v1),
{
    lemma_disjoint_no_dup(hunks);
    let pn = |h: Hunk| hunk_owner(v0.branches, hunks, h) is None;
    assert forall|h1: Hunk, h2: Hunk|
        hunks.contains(h1) && hunks.contains(h2) && h1 != h2 implies !hunks_overlap(h1, h2) by {
        let m1 = choose|m: int| 0 <= m < hunks.len() && hunks[m] == h1;
        let m2 = choose|m: int| 0 <= m < hunks.len() && hunks[m] == h2;
        assert(m1 != m2);
        assert(!hunks_overlap(hunks[m1], hunks[m2]));
    }
    assert forall|i: int, k: int|
        0 <= i < v1.branches.len() && 0 <= k < v1.branches[i].ownership@.len() implies hunks
        .contains(#[trigger] v1.branches[i].ownership@[k]) && hunk_owner(
        v0.branches,
        hunks,
        v1.branches[i].ownership@[k],
    ) == Some(i) && hunk_wf(v1.branches[i].ownership@[k]) by {
        let p = |h: Hunk| hunk_owner(v0.branches, hunks, h) == Some(i);
        let own = v1.branches[i].ownership@;
        assert(own.contains(own[k]));
        hunks.lemma_filter_contains_rev(p, own[k]);
        hunks.lemma_filter_pred(p, k);
        let m = choose|m: int| 0 <= m < hunks.len() && hunks[m] == own[k];
        assert(hunk_wf(hunks[m]));
    }
    assert forall|l: int| 0 <= l < v1.unclaimed.len() implies hunks.contains(
        #[trigger] v1.unclaimed[l],
    ) && hunk_owner(v0.branches, hunks, v1.unclaimed[l]) is None && hunk_wf(v1.unclaimed[l]) by {
        assert(v1.unclaimed.contains(v1.unclaimed[l]));
        hunks.lemma_filter_contains_rev(pn, v1.unclaimed[l]);
        hunks.lemma_filter_pred(pn, l);
        let m = choose|m: int| 0 <= m < hunks.len() && hunks[m] == v1.unclaimed[l];
        assert(hunk_wf(hunks[m]));
    }
    assert forall|i: int| 0 <= i < v1.branches.len() implies branch_wf(
        #[trigger] v1.branches[i],
    ) by {
        assert(branch_wf(v0.branches[i]));
        assert(v1.branches[i].same_meta(v0.branches[i]));
    }
    assert forall|i: int, j: int| 0 <= i < j < v1.branches.len() implies (
    #[trigger] v1.branches[i].rank) < (#[trigger] v1.branches[j].rank) by {
        assert(v1.branches[i].same_meta(v0.branches[i]));
        assert(v1.branches[j].same_meta(v0.branches[j]));
    }
    assert forall|i: int, j: int|
        0 <= i < v1.branches.len() && 0 <= j < v1.branches.len() && i != j implies (
    #[trigger] v1.branches[i].id) != (#[trigger] v1.branches[j].id) && (
    #[trigger] v1.branches[i].name)@ != (#[trigger] v1.branches[j].name)@ by {
        assert(v1.branches[i].same_meta(v0.branches[i]));
        assert(v1.branches[j].same_meta(v0.branches[j]));
    }
    assert forall|i: int| 0 <= i < v1.branches.len() implies (#[trigger] v1.branches[i].rank)
        < v1.next_rank && (#[trigger] v1.branches[i].id) < v1.next_id by {
        assert(v1.branches[i].same_meta(v0.branches[i]));
    }
    assert forall|l: int, l2: int|
        0 <= l < v1.unclaimed.len() && 0 <= l2 < v1.unclaimed.len() && l != l2
        implies !hunks_overlap(#[trigger] v1.unclaimed[l], #[trigger] v1.unclaimed[l2]) by {
        lemma_filter_no_dup(hunks, pn);
        assert(v1.unclaimed[l] != v1.unclaimed[l2]);
    }
    assert forall|a: int, k: int, b: int, l: int|
        0 <= a < v1.branches.len() && 0 <= k < v1.branches[a].ownership@.len() && 0 <= b
            < v1.branches.len() && 0 <= l < v1.branches[b].ownership@.len() && (a != b || k
            != l) implies !hunks_overlap(
        v1.branches[a].ownership@[k],
        v1.branches[b].ownership@[l],
    ) by {
        let ha = v1.branches[a].ownership@[k];
        let hb = v1.branches[b].ownership@[l];
        if a == b {
            lemma_filter_no_dup(hunks, |h: Hunk| hunk_owner(v0.branches, hunks, h) == Some(a));
            assert(ha != hb);
        } else {
            assert(hunk_owner(v0.branches, hunks, ha) == Some(a));
            assert(hunk_owner(v0.branches, hunks, hb) == Some(b));
            assert(ha != hb);
        }
    }
    assert forall|a: int, k: int, l: int|
        0 <= a < v1.branches.len() && 0 <= k < v1.branches[a].ownership@.len() && 0 <= l
            < v1.unclaimed.len() implies !hunks_overlap(
        v1.branches[a].ownership@[k],
        v1.unclaimed[l],
    ) by {
        let ha = v1.branches[a].ownership@[k];
        let hu = v1.unclaimed[l];
        assert(hunk_owner(v0.branches, hunks, ha) == Some(a));
        assert(hunk_owner(v0.branches, hunks, hu) is None);
        assert(ha != hu);
    }
}

/// Updating the base is idempotent once the upstream tip is recorded:
/// a second run against the same fetch report changes nothing, because
/// the first run already brought the recorded tip to the fetched one.
pub proof fn lemma_update_base_idempotent(v: CtlView, u: BaseUpdate)
    requires
        v.base is Some,
    ensures
        ub_next(ub_next(v, u), u) == ub_next(v, u),
{
    let v1 = ub_next(v, u);
    if v.base->0.tip != u.tip {
        assert(v1.base->0.tip == u.tip);
    }
}

/// The commit a freshly created branch points at: the recorded base
/// tip, or commit 0 before a base has been set.
pub open spec fn base_head(v: CtlView) -> u64 {
    match v.base {
        Some(b) => b.tip,
        None => 0,
    }
}

/// The listing row reports exactly the record's data.
pub open spec fn listing_matches(row: BranchListing, b: VirtualBranch) -> bool {
    &&& row.id == b.id
    &&& row.name@ == b.name@
    &&& row.rank == b.rank
    &&& row.applied == b.applied
    &&& row.conflicted == b.conflicted
    &&& row.head == b.head
    &&& row.ownership@ == b.ownership@
}

/// The base data copy reports exactly the record's data.
pub open spec fn base_data_matches(d: BaseData, b: BaseBranch) -> bool {
    &&& d.remote_name@ == b.remote_name@
    &&& d.tip == b.tip
    &&& d.fork_point == b.fork_point
    &&& d.ahead == b.ahead
    &&& d.behind == b.behind
    &&& d.drift@ == b.drift@
}

/// Appending a record with no claims, a fresh id, a fresh name and the
/// top rank preserves the invariant.
proof fn lemma_append_empty_claims_inv(v0: CtlView, v1: CtlView)
    requires
        inv(v0),
        v1.branches.len() == v0.branches.len() + 1,
        forall|i: int| 0 <= i < v0.branches.len() ==> v1.branches[i] == #[trigger] v0.branches[i],
        branch_wf(v1.branches.last()),
        v1.branches.last().ownership@.len() == 0,
        v1.branches.last().rank == v0.next_rank,
        v1.branches.last().id == v0.next_id,
        forall|i: int|
            0 <= i < v0.branches.len() ==> (#[trigger] v0.branches[i].name)@
                != v1.branches.last().name@,
        v1.unclaimed == v0.unclaimed,
        v1.next_rank == v0.next_rank + 1,
        v1.next_id == v0.next_id + 1,
    ensures
        inv(v1),
{
    let n = v0.branches.len() as int;
    assert(v1.branches.last() == v1.branches[n]);
    assert forall|i: int| 0 <= i < v1.branches.len() implies branch_wf(#[trigger] v1.branches[i]) by {
        if i < n {
            assert(v1.branches[i] == v0.branches[i]);
        }
    }
    assert forall|i: int, j: int| 0 <= i < j < v1.branches.len() implies (
    #[trigger] v1.branches[i].rank) < (#[trigger] v1.branches[j].rank) by {
        assert(v1.branches[i] == v0.branches[i]);
        if j < n {
            assert(v1.branches[j] == v0.branches[j]);
        }
    }
    assert forall|i: int, j: int|
        0 <= i < v1.branches.len() && 0 <= j < v1.branches.len() && i != j implies (
    #[trigger] v1.branches[i].id) != (#[trigger] v1.branches[j].id) by {
        if i < n {
            assert(v1.branches[i] == v0.branches[i]);
        }
        if j < n {
            assert(v1.branches[j] == v0.branches[j]);
        }
    }
    assert forall|i: int, j: int|
        0 <= i < v1.branches.len() && 0 <= j < v1.branches.len() && i != j implies (
    #[trigger] v1.branches[i].name)@ != (#[trigger] v1.branches[j].name)@ by {
        if i < n {
            assert(v1.branches[i] == v0.branches[i]);
        }
        if j < n {
            assert(v1.branches[j] == v0.branches[j]);
        }
    }
    assert forall|i: int| 0 <= i < v1.branches.len() implies (#[trigger] v1.branches[i].rank)
        < v1.next_rank by {
        if i < n {
            assert(v1.branches[i] == v0.branches[i]);
        }
    }
    assert forall|i: int| 0 <= i < v1.branches.len() implies (#[trigger] v1.branches[i].id)
        < v1.next_id by {
        if i < n {
            assert(v1.branches[i] == v0.branches[i]);
        }
    }
    assert forall|i: int, k: int, j: int, l: int|
        0 <= i < v1.branches.len() && 0 <= k < v1.branches[i].ownership@.len() && 0 <= j
            < v1.branches.len() && 0 <= l < v1.branches[j].ownership@.len() && (i != j || k
            != l) implies !hunks_overlap(
        v1.branches[i].ownership@[k],
        v1.branches[j].ownership@[l],
    ) by {
        assert(v1.branches.last() == v1.branches[n]);
        assert(i < n && j < n);
        assert(v1.branches[i] == v0.branches[i]);
        assert(v1.branches[j] == v0.branches[j]);
        assert(!hunks_overlap(v0.branches[i].ownership@[k], v0.branches[j].ownership@[l]));
    }
    assert forall|i: int, k: int, l: int|
        0 <= i < v1.branches.len() && 0 <= k < v1.branches[i].ownership@.len() && 0 <= l
            < v1.unclaimed.len() implies !hunks_overlap(
        v1.branches[i].ownership@[k],
        v1.unclaimed[l],
    ) by {
        assert(v1.branches.last() == v1.branches[n]);
        assert(i < n);
        assert(v1.branches[i] == v0.branches[i]);
        assert(!hunks_overlap(v0.branches[i].ownership@[k], v0.unclaimed[l]));
    }
}

} // verus!

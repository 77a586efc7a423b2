use virtual_branches::base::BaseTarget;
use virtual_branches::base::BaseUpdate;
use virtual_branches::controller::Controller;
use virtual_branches::controller::PushOutcome;
use virtual_branches::errors::VbError;
use virtual_branches::hunks::Hunk;
use virtual_branches::vbranch::BranchCreateRequest;
use virtual_branches::vbranch::BranchUpdateRequest;

fn hunk(file: u64, start: u64, end: u64) -> Hunk {
    Hunk { file, start, end }
}

fn target(tip: u64, diff: Vec<Hunk>) -> BaseTarget {
    BaseTarget {
        remote_name: String::from("origin/main"),
        tip,
        fork_point: tip,
        ahead: 0,
        behind: 0,
        diff,
    }
}

fn create(ctl: &mut Controller, name: &str) -> u64 {
    assert!(ctl.name_available(&String::from(name)));
    ctl.create_virtual_branch(BranchCreateRequest { name: String::from(name) })
}

fn claim(ctl: &mut Controller, id: u64, hunks: Vec<Hunk>) {
    ctl.update_virtual_branch(BranchUpdateRequest {
        branch_id: id,
        name: None,
        order: None,
        ownership: Some(hunks),
    })
    .unwrap();
}

fn idx(ctl: &Controller, id: u64) -> usize {
    ctl.find_branch(id).unwrap()
}

#[test]
fn create_and_list() {
    let mut ctl = Controller::new();
    ctl.set_base_branch(Some(target(1, vec![]))).unwrap();
    let a = create(&mut ctl, "feature-a");
    let b = create(&mut ctl, "feature-b");
    assert_ne!(a, b);
    let rows = ctl.list_virtual_branches();
    assert_eq!(rows.len(), 2);
    assert_eq!(rows[0].name, "feature-a");
    assert_eq!(rows[1].name, "feature-b");
    assert!(rows[0].rank < rows[1].rank);
    assert!(!rows[0].applied && !rows[0].conflicted);
    assert_eq!(rows[0].head, 1);
}

#[test]
fn name_availability() {
    let mut ctl = Controller::new();
    assert!(!ctl.name_available(&String::new()));
    create(&mut ctl, "taken");
    assert!(!ctl.name_available(&String::from("taken")));
    assert!(ctl.name_available(&String::from("free")));
}

#[test]
fn set_base_unreadable_store() {
    let mut ctl = Controller::new();
    assert_eq!(ctl.set_base_branch(None).unwrap_err(), VbError::ObjectStoreError);
    assert!(ctl.get_base_branch_data().is_none());
}

#[test]
fn base_data_round_trip() {
    let mut ctl = Controller::new();
    let mut t = target(7, vec![]);
    t.fork_point = 3;
    t.behind = 2;
    ctl.set_base_branch(Some(t)).unwrap();
    let d = ctl.get_base_branch_data().unwrap();
    assert_eq!(d.remote_name, "origin/main");
    assert_eq!(d.tip, 7);
    assert_eq!(d.fork_point, 3);
    assert_eq!(d.ahead, 0);
    assert_eq!(d.behind, 2);
    assert!(d.drift.is_empty());
}

// A fresh diff with no claimants lands whole in the unclaimed set, and
// a prior claimant keeps its hunk on a second reconciliation: nothing
// is lost or duplicated across the lists.
#[test]
fn reconcile_partitions_diff() {
    let mut ctl = Controller::new();
    let h1 = hunk(1, 0, 10);
    let h2 = hunk(2, 5, 9);
    ctl.set_base_branch(Some(target(1, vec![h1, h2]))).unwrap();
    assert_eq!(ctl.unclaimed, vec![h1, h2]);

    let b = create(&mut ctl, "feature-a");
    claim(&mut ctl, b, vec![h1]);
    assert_eq!(ctl.unclaimed, vec![h2]);

    ctl.reconcile_ownership(&vec![h1, h2]);
    assert_eq!(ctl.branches[idx(&ctl, b)].ownership, vec![h1]);
    assert_eq!(ctl.unclaimed, vec![h2]);
}

// Applying and then unapplying a branch restores the full pre-apply
// state, materialized hunks included.
#[test]
fn apply_unapply_roundtrip() {
    let mut ctl = Controller::new();
    let h1 = hunk(1, 0, 10);
    ctl.set_base_branch(Some(target(1, vec![h1]))).unwrap();
    let b = create(&mut ctl, "feature-a");
    claim(&mut ctl, b, vec![h1]);
    let before_unclaimed = ctl.unclaimed.clone();

    ctl.apply_branch(b).unwrap();
    let i = idx(&ctl, b);
    assert!(ctl.branches[i].applied);
    assert!(!ctl.branches[i].conflicted);

    ctl.unapply_branch(b).unwrap();
    let i = idx(&ctl, b);
    assert!(!ctl.branches[i].applied);
    assert!(!ctl.branches[i].conflicted);
    assert_eq!(ctl.branches[i].ownership, vec![h1]);
    assert_eq!(ctl.unclaimed, before_unclaimed);
}

// Round trip: branch "feature-x" owns a hunk of one file, is applied,
// and is committed; its head advances, the hunk leaves the uncommitted
// ledger, and nothing else moves.
#[test]
fn commit_round_trip() {
    let mut ctl = Controller::new();
    let h = hunk(1, 4, 9);
    ctl.set_base_branch(Some(target(1, vec![h]))).unwrap();
    let b = create(&mut ctl, "feature-x");
    claim(&mut ctl, b, vec![h]);
    ctl.apply_branch(b).unwrap();

    let old_head = ctl.branches[idx(&ctl, b)].head;
    let cid = ctl.commit_virtual_branch(b, "add x", Some(42)).unwrap();
    assert_eq!(cid, 42);
    let i = idx(&ctl, b);
    assert_ne!(ctl.branches[i].head, old_head);
    assert_eq!(ctl.branches[i].head, 42);
    assert!(ctl.branches[i].ownership.is_empty());
    assert!(ctl.branches[i].applied);
    assert_eq!(ctl.branches[i].unpushed, 1);
    assert!(ctl.unclaimed.is_empty());
}

// Committing one branch never changes any other branch's owned hunks
// or applied state.
#[test]
fn commit_leaves_other_branches_alone() {
    let mut ctl = Controller::new();
    let h1 = hunk(1, 0, 10);
    let h2 = hunk(2, 0, 10);
    ctl.set_base_branch(Some(target(1, vec![h1, h2]))).unwrap();
    let b1 = create(&mut ctl, "feature-a");
    let b2 = create(&mut ctl, "feature-b");
    claim(&mut ctl, b1, vec![h1]);
    claim(&mut ctl, b2, vec![h2]);
    ctl.apply_branch(b1).unwrap();
    ctl.apply_branch(b2).unwrap();

    ctl.commit_virtual_branch(b1, "first", Some(50)).unwrap();
    let j = idx(&ctl, b2);
    assert_eq!(ctl.branches[j].ownership, vec![h2]);
    assert!(ctl.branches[j].applied);
    assert!(!ctl.branches[j].conflicted);
    assert_eq!(ctl.branches[j].unpushed, 0);
}

#[test]
fn commit_error_cases() {
    let mut ctl = Controller::new();
    let h = hunk(1, 0, 10);
    ctl.set_base_branch(Some(target(1, vec![h]))).unwrap();
    assert_eq!(
        ctl.commit_virtual_branch(99, "none", Some(5)).unwrap_err(),
        VbError::BranchNotFound
    );

    let b = create(&mut ctl, "feature-a");
    ctl.apply_branch(b).unwrap();
    assert_eq!(
        ctl.commit_virtual_branch(b, "empty", Some(5)).unwrap_err(),
        VbError::EmptyCommit
    );

    claim(&mut ctl, b, vec![h]);
    assert_eq!(
        ctl.commit_virtual_branch(b, "no store", None).unwrap_err(),
        VbError::ObjectStoreError
    );
    assert_eq!(ctl.branches[idx(&ctl, b)].ownership, vec![h]);

    // a base advance overriding the owned hunk leaves the branch
    // conflicted, and a conflicted branch cannot be committed
    ctl.update_base_branch(Some(BaseUpdate {
        tip: 2,
        ahead: 0,
        behind: 1,
        drift: vec![hunk(1, 5, 7)],
    }))
    .unwrap();
    assert!(ctl.branches[idx(&ctl, b)].conflicted);
    assert_eq!(
        ctl.commit_virtual_branch(b, "conflicted", Some(6)).unwrap_err(),
        VbError::BranchConflicted
    );
}

// Updating the base twice against the same fetch report changes
// nothing the second time.
#[test]
fn update_base_idempotent() {
    let mut ctl = Controller::new();
    let h = hunk(1, 0, 10);
    ctl.set_base_branch(Some(target(1, vec![h]))).unwrap();
    let b = create(&mut ctl, "feature-a");
    claim(&mut ctl, b, vec![h]);
    ctl.apply_branch(b).unwrap();

    let fetch = BaseUpdate { tip: 3, ahead: 0, behind: 2, drift: vec![hunk(1, 2, 4)] };
    ctl.update_base_branch(Some(fetch)).unwrap();
    let after_once = (
        ctl.list_virtual_branches()
            .iter()
            .map(|r| (r.id, r.rank, r.applied, r.conflicted, r.head, r.ownership.clone()))
            .collect::<Vec<_>>(),
        ctl.unclaimed.clone(),
    );
    let d1 = ctl.get_base_branch_data().unwrap();

    let fetch_again = BaseUpdate { tip: 3, ahead: 0, behind: 2, drift: vec![hunk(1, 2, 4)] };
    ctl.update_base_branch(Some(fetch_again)).unwrap();
    let after_twice = (
        ctl.list_virtual_branches()
            .iter()
            .map(|r| (r.id, r.rank, r.applied, r.conflicted, r.head, r.ownership.clone()))
            .collect::<Vec<_>>(),
        ctl.unclaimed.clone(),
    );
    let d2 = ctl.get_base_branch_data().unwrap();
    assert_eq!(after_once, after_twice);
    assert_eq!((d1.tip, d1.ahead, d1.behind, d1.drift), (d2.tip, d2.ahead, d2.behind, d2.drift));
}

#[test]
fn update_base_unreachable_changes_nothing() {
    let mut ctl = Controller::new();
    ctl.set_base_branch(Some(target(1, vec![]))).unwrap();
    assert_eq!(ctl.update_base_branch(None).unwrap_err(), VbError::UpstreamUnreachable);
    let d = ctl.get_base_branch_data().unwrap();
    assert_eq!(d.tip, 1);
}

// A base advance overlapping one applied branch's hunk flags exactly
// that branch conflicted, keeps its claims, and leaves the unapplied,
// non-overlapping branch untouched.
#[test]
fn base_advance_flags_overlapped_branch() {
    let mut ctl = Controller::new();
    let h1 = hunk(1, 0, 10);
    let h2 = hunk(2, 0, 10);
    ctl.set_base_branch(Some(target(1, vec![h1, h2]))).unwrap();
    let b1 = create(&mut ctl, "feature-a");
    let b2 = create(&mut ctl, "feature-b");
    claim(&mut ctl, b1, vec![h1]);
    claim(&mut ctl, b2, vec![h2]);
    ctl.apply_branch(b1).unwrap();

    ctl.update_base_branch(Some(BaseUpdate {
        tip: 2,
        ahead: 0,
        behind: 1,
        drift: vec![hunk(1, 5, 8)],
    }))
    .unwrap();

    let i = idx(&ctl, b1);
    assert!(ctl.branches[i].applied);
    assert!(ctl.branches[i].conflicted);
    assert_eq!(ctl.branches[i].ownership, vec![h1]);

    let j = idx(&ctl, b2);
    assert!(!ctl.branches[j].applied);
    assert!(!ctl.branches[j].conflicted);
    assert_eq!(ctl.branches[j].ownership, vec![h2]);

    // unapplying the conflicted branch clears its flag
    ctl.unapply_branch(b1).unwrap();
    assert!(!ctl.branches[idx(&ctl, b1)].conflicted);
}

// When one fresh hunk overlaps prior claims of both branches, the
// lower rank retains it; the higher-rank claim is contested, so the
// remainder only it matched falls to the unclaimed set.
#[test]
fn rank_tiebreak_sends_remainder_to_default() {
    let mut ctl = Controller::new();
    let c1 = hunk(1, 0, 10);
    let c2 = hunk(1, 10, 20);
    ctl.set_base_branch(Some(target(1, vec![c1, c2]))).unwrap();
    let b1 = create(&mut ctl, "feature-a");
    let b2 = create(&mut ctl, "feature-b");
    claim(&mut ctl, b1, vec![c1]);
    claim(&mut ctl, b2, vec![c2]);

    let contested = hunk(1, 5, 15);
    let remainder = hunk(1, 16, 18);
    ctl.reconcile_ownership(&vec![contested, remainder]);

    assert_eq!(ctl.branches[idx(&ctl, b1)].ownership, vec![contested]);
    assert!(ctl.branches[idx(&ctl, b2)].ownership.is_empty());
    assert_eq!(ctl.unclaimed, vec![remainder]);
}

// Deleting an applied branch fails; after unapply it succeeds and the
// branch's owned hunks revert to the unclaimed set.
#[test]
fn delete_applied_then_unapplied() {
    let mut ctl = Controller::new();
    let h = hunk(1, 0, 10);
    ctl.set_base_branch(Some(target(1, vec![h]))).unwrap();
    let b = create(&mut ctl, "feature-a");
    claim(&mut ctl, b, vec![h]);
    ctl.apply_branch(b).unwrap();

    assert_eq!(ctl.delete_virtual_branch(b).unwrap_err(), VbError::BranchApplied);
    assert!(ctl.find_branch(b).is_some());

    ctl.unapply_branch(b).unwrap();
    ctl.delete_virtual_branch(b).unwrap();
    assert!(ctl.find_branch(b).is_none());
    assert_eq!(ctl.unclaimed, vec![h]);
}

#[test]
fn delete_missing_branch() {
    let mut ctl = Controller::new();
    assert_eq!(ctl.delete_virtual_branch(7).unwrap_err(), VbError::BranchNotFound);
}

#[test]
fn ownership_edit_collision_is_refused() {
    let mut ctl = Controller::new();
    let h1 = hunk(1, 0, 10);
    let h2 = hunk(2, 0, 10);
    ctl.set_base_branch(Some(target(1, vec![h1, h2]))).unwrap();
    let b1 = create(&mut ctl, "feature-a");
    let b2 = create(&mut ctl, "feature-b");
    claim(&mut ctl, b1, vec![h1]);

    // claiming a hunk owned by another branch collides
    let r = ctl.update_virtual_branch(BranchUpdateRequest {
        branch_id: b2,
        name: None,
        order: None,
        ownership: Some(vec![h1]),
    });
    assert_eq!(r.unwrap_err(), VbError::OwnershipConflict);
    assert!(ctl.branches[idx(&ctl, b2)].ownership.is_empty());
    assert_eq!(ctl.branches[idx(&ctl, b1)].ownership, vec![h1]);

    // claiming a region that is not a current hunk at all collides too
    let r = ctl.update_virtual_branch(BranchUpdateRequest {
        branch_id: b2,
        name: None,
        order: None,
        ownership: Some(vec![hunk(3, 0, 5)]),
    });
    assert_eq!(r.unwrap_err(), VbError::OwnershipConflict);
}

#[test]
fn update_name_and_order() {
    let mut ctl = Controller::new();
    let a = create(&mut ctl, "feature-a");
    let b = create(&mut ctl, "feature-b");
    ctl.update_virtual_branch(BranchUpdateRequest {
        branch_id: a,
        name: Some(String::from("renamed")),
        order: Some(9),
        ownership: None,
    })
    .unwrap();
    let rows = ctl.list_virtual_branches();
    assert_eq!(rows.len(), 2);
    assert_eq!(rows[0].id, b);
    assert_eq!(rows[1].id, a);
    assert_eq!(rows[1].name, "renamed");
    assert_eq!(rows[1].rank, 9);
}

#[test]
fn update_missing_branch() {
    let mut ctl = Controller::new();
    let r = ctl.update_virtual_branch(BranchUpdateRequest {
        branch_id: 3,
        name: None,
        order: None,
        ownership: None,
    });
    assert_eq!(r.unwrap_err(), VbError::BranchNotFound);
}

// An ownership edit exchanges hunks with the unclaimed set: dropped
// hunks fall back, taken hunks leave it.
#[test]
fn ownership_edit_exchanges_with_unclaimed() {
    let mut ctl = Controller::new();
    let h1 = hunk(1, 0, 10);
    let h2 = hunk(2, 0, 10);
    ctl.set_base_branch(Some(target(1, vec![h1, h2]))).unwrap();
    let b = create(&mut ctl, "feature-a");
    claim(&mut ctl, b, vec![h1]);
    assert_eq!(ctl.unclaimed, vec![h2]);
    claim(&mut ctl, b, vec![h2]);
    assert_eq!(ctl.branches[idx(&ctl, b)].ownership, vec![h2]);
    assert_eq!(ctl.unclaimed, vec![h1]);
}

#[test]
fn push_outcomes() {
    let mut ctl = Controller::new();
    let h = hunk(1, 0, 10);
    ctl.set_base_branch(Some(target(1, vec![h]))).unwrap();

    assert_eq!(
        ctl.push_virtual_branch(42, PushOutcome::Delivered).unwrap_err(),
        VbError::BranchNotFound
    );

    let b = create(&mut ctl, "feature-a");
    claim(&mut ctl, b, vec![h]);
    ctl.apply_branch(b).unwrap();
    let cid = ctl.commit_virtual_branch(b, "work", Some(9)).unwrap();
    assert_eq!(ctl.branches[idx(&ctl, b)].unpushed, 1);

    assert_eq!(
        ctl.push_virtual_branch(b, PushOutcome::Unreachable).unwrap_err(),
        VbError::UpstreamUnreachable
    );
    assert_eq!(ctl.branches[idx(&ctl, b)].unpushed, 1);

    assert_eq!(
        ctl.push_virtual_branch(b, PushOutcome::NonFastForward).unwrap_err(),
        VbError::PushRejected
    );
    assert_eq!(ctl.branches[idx(&ctl, b)].remote_head, None);

    ctl.push_virtual_branch(b, PushOutcome::Delivered).unwrap();
    let i = idx(&ctl, b);
    assert_eq!(ctl.branches[i].remote_head, Some(cid));
    assert_eq!(ctl.branches[i].unpushed, 0);
}

#[test]
fn create_from_branch_tracks_tip() {
    let mut ctl = Controller::new();
    let id = ctl.create_virtual_branch_from_branch(String::from("imported"), 77);
    let i = idx(&ctl, id);
    assert_eq!(ctl.branches[i].head, 77);
    assert_eq!(ctl.branches[i].remote_head, Some(77));
    assert_eq!(ctl.branches[i].unpushed, 0);
    assert!(!ctl.branches[i].applied);
}

// A reverted change vanishes from the diff, and the claim on it is
// dropped at the next reconciliation: an empty diff clears every list.
#[test]
fn reconcile_empty_diff_drops_vanished_claims() {
    let mut ctl = Controller::new();
    let h = hunk(1, 0, 10);
    ctl.set_base_branch(Some(target(1, vec![h]))).unwrap();
    let b = create(&mut ctl, "feature-a");
    claim(&mut ctl, b, vec![h]);

    ctl.reconcile_ownership(&vec![]);
    assert!(ctl.branches[idx(&ctl, b)].ownership.is_empty());
    assert!(ctl.unclaimed.is_empty());
}

// A hunk that shifted but still matches the prior claim's region
// keeps its owner.
#[test]
fn reconcile_shifted_hunk_keeps_owner() {
    let mut ctl = Controller::new();
    let h = hunk(1, 0, 10);
    ctl.set_base_branch(Some(target(1, vec![h]))).unwrap();
    let b = create(&mut ctl, "feature-a");
    claim(&mut ctl, b, vec![h]);

    let shifted = hunk(1, 4, 13);
    ctl.reconcile_ownership(&vec![shifted]);
    assert_eq!(ctl.branches[idx(&ctl, b)].ownership, vec![shifted]);
    assert!(ctl.unclaimed.is_empty());
}

// Dropping every claim hands the branch's hunks back to the unclaimed
// set without touching the diff.
#[test]
fn ownership_edit_can_drop_everything() {
    let mut ctl = Controller::new();
    let h1 = hunk(1, 0, 10);
    let h2 = hunk(1, 20, 30);
    ctl.set_base_branch(Some(target(1, vec![h1, h2]))).unwrap();
    let b = create(&mut ctl, "feature-a");
    claim(&mut ctl, b, vec![h1, h2]);
    assert!(ctl.unclaimed.is_empty());

    claim(&mut ctl, b, vec![]);
    assert!(ctl.branches[idx(&ctl, b)].ownership.is_empty());
    assert_eq!(ctl.unclaimed, vec![h1, h2]);
}

// Applying a branch whose hunks the upstream overrode flags it
// conflicted at apply time; the apply still succeeds.
#[test]
fn apply_over_drift_marks_conflict() {
    let mut ctl = Controller::new();
    let h = hunk(1, 0, 10);
    ctl.set_base_branch(Some(target(1, vec![h]))).unwrap();
    let b = create(&mut ctl, "feature-a");
    claim(&mut ctl, b, vec![h]);
    ctl.update_base_branch(Some(BaseUpdate {
        tip: 2,
        ahead: 0,
        behind: 1,
        drift: vec![hunk(1, 3, 6)],
    }))
    .unwrap();
    // the branch was not applied, so the advance left it alone
    assert!(!ctl.branches[idx(&ctl, b)].conflicted);
    ctl.apply_branch(b).unwrap();
    assert!(ctl.branches[idx(&ctl, b)].conflicted);
}

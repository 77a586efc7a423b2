//! The ownership ledger's reconciliation rule.
//!
//! Whenever the uncommitted diff is re-derived, each fresh hunk must be
//! assigned to the branch that previously claimed its region, or to the
//! unclaimed set when no branch did.  Regions shift as the diff is
//! recomputed, so one fresh hunk may now overlap prior claims of two
//! branches: the branch with the numerically lowest rank wins it, the
//! higher-rank claim is contested and assigns nothing at all, and the
//! remainder that only the contested claim matched falls to the
//! unclaimed set.  The rule is a function of the prior claims and the
//! fresh diff alone, so reconciliation is deterministic and stable.

use vstd::prelude::*;

use crate::hunks::Hunk;
use crate::hunks::any_overlap;
use crate::hunks::hunk_wf;
use crate::hunks::hunks_disjoint;
use crate::hunks::hunks_overlap;
use crate::hunks::hunks_wf;
use crate::hunks::overlaps;
use crate::vbranch::VirtualBranch;

verus! {

/// A list of well-formed, pairwise disjoint hunks never repeats a
/// value: a well-formed hunk overlaps itself.
pub proof fn lemma_disjoint_no_dup(s: Seq<Hunk>)
    requires
        hunks_wf(s),
        hunks_disjoint(s),
    ensures
        s.no_duplicates(),
{
    assert forall|i: int, j: int| 0 <= i < j < s.len() implies s[i] != s[j] by {
        assert(!hunks_overlap(s[i], s[j]));
        assert(hunk_wf(s[i]));
    }
}

/// Filtering keeps a duplicate-free sequence duplicate-free.
pub proof fn lemma_filter_no_dup(s: Seq<Hunk>, p: spec_fn(Hunk) -> bool)
    requires
        s.no_duplicates(),
    ensures
        s.filter(p).no_duplicates(),
    decreases s.len(),
{
    reveal(Seq::filter);
    if s.len() > 0 {
        let rest = s.drop_last();
        assert(rest.no_duplicates());
        lemma_filter_no_dup(rest, p);
        if p(s.last()) {
            if rest.filter(p).contains(s.last()) {
                rest.lemma_filter_contains_rev(p, s.last());
                let m = choose|m: int| 0 <= m < rest.len() && rest[m] == s.last();
                assert(s[m] == s[s.len() - 1]);
                assert(false);
            }
            let out = rest.filter(p).push(s.last());
            assert(s.filter(p) == out);
            assert forall|i: int, j: int| 0 <= i < j < out.len() implies out[i] != out[j] by {
                if j == out.len() - 1 {
                    assert(rest.filter(p).contains(rest.filter(p)[i]));
                }
            }
        }
    }
}

/// A prior claim `c` of branch `i` is contested when some fresh hunk
/// it overlaps is also overlapped by a claim of a branch of strictly
/// lower rank: both branches would take that hunk, and the lower rank
/// wins.
pub open spec fn claim_contested(bs: Seq<VirtualBranch>, hunks: Seq<Hunk>, i: int, c: Hunk) -> bool {
    exists|m: int, j: int, l: int|
        0 <= m < hunks.len() && 0 <= j < bs.len() && 0 <= l < bs[j].ownership@.len()
            && bs[j].rank < bs[i].rank && hunks_overlap(c, #[trigger] hunks[m])
            && hunks_overlap(#[trigger] bs[j].ownership@[l], hunks[m])
}

/// Branch `i` may claim the fresh hunk `h`: one of its prior claims
/// overlaps `h` and is nowhere contested by a lower-rank branch.
pub open spec fn eligible(bs: Seq<VirtualBranch>, hunks: Seq<Hunk>, i: int, h: Hunk) -> bool {
    exists|k: int|
        0 <= k < bs[i].ownership@.len() && hunks_overlap(#[trigger] bs[i].ownership@[k], h)
            && !claim_contested(bs, hunks, i, bs[i].ownership@[k])
}

/// First eligible branch among the first `n`, scanning ascending.  With
/// branches sorted by rank this is the eligible branch of lowest rank.
pub open spec fn owner_upto(bs: Seq<VirtualBranch>, hunks: Seq<Hunk>, h: Hunk, n: int) -> Option<
    int,
>
    decreases n,
{
    if n <= 0 {
        None
    } else {
        match owner_upto(bs, hunks, h, n - 1) {
            Some(i) => Some(i),
            None => if eligible(bs, hunks, n - 1, h) {
                Some(n - 1)
            } else {
                None
            },
        }
    }
}

/// The branch the fresh hunk `h` is assigned to, if any: the first (so,
/// sorted by rank, the lowest-rank) branch with an uncontested prior
/// claim overlapping `h`.  `None` sends `h` to the unclaimed set.
pub open spec fn hunk_owner(bs: Seq<VirtualBranch>, hunks: Seq<Hunk>, h: Hunk) -> Option<int> {
    owner_upto(bs, hunks, h, bs.len() as int)
}

/// Once a scan prefix has found an owner, longer prefixes agree.
pub proof fn lemma_owner_upto_extends(bs: Seq<VirtualBranch>, hunks: Seq<Hunk>, h: Hunk, n: int, m: int)
    requires
        0 <= n <= m,
        owner_upto(bs, hunks, h, n) is Some,
    ensures
        owner_upto(bs, hunks, h, m) == owner_upto(bs, hunks, h, n),
    decreases m,
{
    if m > n {
        lemma_owner_upto_extends(bs, hunks, h, n, m - 1);
    }
}

/// What a scan prefix's answer means: a found owner is an eligible index
/// inside the prefix, and `None` means no index of the prefix is
/// eligible.
pub proof fn lemma_owner_upto_props(bs: Seq<VirtualBranch>, hunks: Seq<Hunk>, h: Hunk, n: int)
    requires
        0 <= n,
    ensures
        match owner_upto(bs, hunks, h, n) {
            Some(i) => 0 <= i < n && eligible(bs, hunks, i, h),
            None => forall|i: int| 0 <= i < n ==> !eligible(bs, hunks, i, h),
        },
    decreases n,
{
    if n > 0 {
        lemma_owner_upto_props(bs, hunks, h, n - 1);
    }
}

/// Decides `claim_contested`.
pub fn claim_contested_x(bs: &Vec<VirtualBranch>, hunks: &Vec<Hunk>, i: usize, c: Hunk) -> (r: bool)
    requires
        i < bs@.len(),
    ensures
        r == claim_contested(bs@, hunks@, i as int, c),
{
    let mut m: usize = 0;
    while m < hunks.len()
        invariant
            i < bs@.len(),
            m <= hunks@.len(),
            forall|m2: int, j: int, l: int|
                0 <= m2 < m && 0 <= j < bs@.len() && 0 <= l < bs@[j].ownership@.len()
                    && bs@[j].rank < bs@[i as int].rank && hunks_overlap(c, #[trigger] hunks@[m2])
                    ==> !hunks_overlap(#[trigger] bs@[j].ownership@[l], hunks@[m2]),
        decreases hunks@.len() - m,
    {
        let hm = hunks[m];
        if overlaps(c, hm) {
            let mut j: usize = 0;
            while j < bs.len()
                invariant
                    i < bs@.len(),
                    m < hunks@.len(),
                    j <= bs@.len(),
                    hm == hunks@[m as int],
                    hunks_overlap(c, hunks@[m as int]),
                    forall|j2: int, l: int|
                        0 <= j2 < j && 0 <= l < bs@[j2].ownership@.len() && bs@[j2].rank < bs@[
                            i as int].rank ==> !hunks_overlap(
                            #[trigger] bs@[j2].ownership@[l],
                            hunks@[m as int],
                        ),
                decreases bs@.len() - j,
            {
                if bs[j].rank < bs[i].rank {
                    if any_overlap(&bs[j].ownership, hm) {
                        return true;
                    }
                }
                j += 1;
            }
        }
        m += 1;
    }
    false
}

/// Decides `eligible`.
pub fn eligible_x(bs: &Vec<VirtualBranch>, hunks: &Vec<Hunk>, i: usize, h: Hunk) -> (r: bool)
    requires
        i < bs@.len(),
    ensures
        r == eligible(bs@, hunks@, i as int, h),
{
    let mut k: usize = 0;
    while k < bs[i].ownership.len()
        invariant
            i < bs@.len(),
            k <= bs@[i as int].ownership@.len(),
            forall|k2: int|
                0 <= k2 < k ==> !(hunks_overlap(#[trigger] bs@[i as int].ownership@[k2], h)
                    && !claim_contested(bs@, hunks@, i as int, bs@[i as int].ownership@[k2])),
        decreases bs@[i as int].ownership@.len() - k,
    {
        let c = bs[i].ownership[k];
        if overlaps(c, h) {
            if !claim_contested_x(bs, hunks, i, c) {
                return true;
            }
        }
        k += 1;
    }
    false
}

/// Reconciliation loses nothing and duplicates nothing: given the
/// reconciled claim lists — branch `i`'s list holds the fresh hunks
/// assigned to `i`, the unclaimed list those assigned to no branch —
/// every hunk of the fresh diff lands in exactly one list, and the
/// lists hold nothing but fresh diff hunks.  Their union is exactly
/// the diff: a hunk of the diff is in the one list its owner names
/// and in no other, since `hunk_owner` names at most one owner.
pub proof fn lemma_reconciled_partition(
    bs: Seq<VirtualBranch>,
    hunks: Seq<Hunk>,
    owned: Seq<Seq<Hunk>>,
    unclaimed: Seq<Hunk>,
    h: Hunk,
)
    requires
        owned.len() == bs.len(),
        forall|i: int|
            0 <= i < owned.len() ==> (#[trigger] owned[i]) == hunks.filter(
                |x: Hunk| hunk_owner(bs, hunks, x) == Some(i),
            ),
        unclaimed == hunks.filter(|x: Hunk| hunk_owner(bs, hunks, x) is None),
    ensures
        hunks.contains(h) && hunk_owner(bs, hunks, h) is None ==> unclaimed.contains(h),
        (hunks.contains(h) && hunk_owner(bs, hunks, h) is Some) ==> (0 <= hunk_owner(bs, hunks, h)->0
            < owned.len() && owned[hunk_owner(bs, hunks, h)->0].contains(h)),
        forall|i: int|
            0 <= i < owned.len() && (#[trigger] owned[i]).contains(h) ==> hunks.contains(h)
                && hunk_owner(bs, hunks, h) == Some(i),
        unclaimed.contains(h) ==> hunks.contains(h) && hunk_owner(bs, hunks, h) is None,
{
    if hunks.contains(h) {
        let m = choose|m: int| 0 <= m < hunks.len() && hunks[m] == h;
        if hunk_owner(bs, hunks, h) is None {
            hunks.lemma_filter_contains(|x: Hunk| hunk_owner(bs, hunks, x) is None, m);
        } else {
            let i = hunk_owner(bs, hunks, h)->0;
            lemma_owner_upto_props(bs, hunks, h, bs.len() as int);
            hunks.lemma_filter_contains(|x: Hunk| hunk_owner(bs, hunks, x) == Some(i), m);
        }
    }
    assert forall|i: int|
        0 <= i < owned.len() && (#[trigger] owned[i]).contains(h) implies hunks.contains(h)
        && hunk_owner(bs, hunks, h) == Some(i) by {
        let p = |x: Hunk| hunk_owner(bs, hunks, x) == Some(i);
        hunks.lemma_filter_contains_rev(p, h);
        let mi = choose|mi: int| 0 <= mi < owned[i].len() && owned[i][mi] == h;
        hunks.lemma_filter_pred(p, mi);
    }
    if unclaimed.contains(h) {
        let p = |x: Hunk| hunk_owner(bs, hunks, x) is None;
        hunks.lemma_filter_contains_rev(p, h);
        let mi = choose|mi: int| 0 <= mi < unclaimed.len() && unclaimed[mi] == h;
        hunks.lemma_filter_pred(p, mi);
    }
}

/// Decides `hunk_owner`.
pub fn hunk_owner_x(bs: &Vec<VirtualBranch>, hunks: &Vec<Hunk>, h: Hunk) -> (r: Option<usize>)
    ensures
        match r {
            Some(i) => i < bs@.len() && hunk_owner(bs@, hunks@, h) == Some(i as int),
            None => hunk_owner(bs@, hunks@, h) is None,
        },
{
    let mut n: usize = 0;
    while n < bs.len()
        invariant
            n <= bs@.len(),
            owner_upto(bs@, hunks@, h, n as int) is None,
        decreases bs@.len() - n,
    {
        if eligible_x(bs, hunks, n, h) {
            proof {
                lemma_owner_upto_extends(bs@, hunks@, h, n + 1, bs@.len() as int);
            }
            return Some(n);
        }
        n += 1;
    }
    None
}

} // verus!

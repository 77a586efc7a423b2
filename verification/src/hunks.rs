//! Hunks: contiguous changed regions of single files.
//!
//! A hunk is identified by the file it belongs to and the half-open line
//! range it covers; files are named by interned ids so that ranges can be
//! compared with plain integer arithmetic.  Ownership bookkeeping never
//! needs the text of a change, only which region it covers, so the region
//! is the whole record here.

use vstd::prelude::*;

verus! {

/// A contiguous changed region of one file: the half-open range
/// `start..end` of the file with id `file`.
#[derive(Clone, Copy, Debug, PartialEq, Eq, Structural)]
pub struct Hunk {
    /// Interned id of the file this change belongs to.
    pub file: u64,
    /// First changed line.
    pub start: u64,
    /// One past the last changed line; always greater than `start`.
    pub end: u64,
}

/// A well-formed hunk covers a non-empty range.
pub open spec fn hunk_wf(h: Hunk) -> bool {
    h.start < h.end
}

/// Two hunks overlap when they touch the same file and their ranges
/// intersect.  A well-formed hunk always overlaps itself.
pub open spec fn hunks_overlap(a: Hunk, b: Hunk) -> bool {
    a.file == b.file && a.start < b.end && b.start < a.end
}

/// Every hunk of the sequence is well-formed.
pub open spec fn hunks_wf(s: Seq<Hunk>) -> bool {
    forall|i: int| 0 <= i < s.len() ==> hunk_wf(#[trigger] s[i])
}

/// No two hunks at distinct positions overlap.  Together with
/// well-formedness this also rules out duplicates, since a well-formed
/// hunk overlaps itself.
pub open spec fn hunks_disjoint(s: Seq<Hunk>) -> bool {
    forall|i: int, j: int|
        0 <= i < s.len() && 0 <= j < s.len() && i != j ==> !hunks_overlap(#[trigger] s[i], #[trigger] s[j])
}

/// Some hunk of the sequence overlaps `h`.
pub open spec fn seq_overlaps(s: Seq<Hunk>, h: Hunk) -> bool {
    exists|i: int| 0 <= i < s.len() && hunks_overlap(#[trigger] s[i], h)
}

/// Decides `hunks_overlap`.
pub fn overlaps(a: Hunk, b: Hunk) -> (r: bool)
    ensures
        r == hunks_overlap(a, b),
{
    a.file == b.file && a.start < b.end && b.start < a.end
}

/// Decides `seq_overlaps`: does any hunk of `s` overlap `h`?
pub fn any_overlap(s: &Vec<Hunk>, h: Hunk) -> (r: bool)
    ensures
        r == seq_overlaps(s@, h),
{
    let mut i: usize = 0;
    while i < s.len()
        invariant
            i <= s.len(),
            forall|k: int| 0 <= k < i ==> !hunks_overlap(#[trigger] s@[k], h),
        decreases s.len() - i,
    {
        if overlaps(s[i], h) {
            return true;
        }
        i += 1;
    }
    false
}

/// Some hunk of `a` overlaps some hunk of `b`.
pub open spec fn seqs_overlap(a: Seq<Hunk>, b: Seq<Hunk>) -> bool {
    exists|j: int| 0 <= j < b.len() && seq_overlaps(a, #[trigger] b[j])
}

/// Decides `seqs_overlap`: do the two hunk lists touch a common region?
pub fn lists_overlap(a: &Vec<Hunk>, b: &Vec<Hunk>) -> (r: bool)
    ensures
        r == seqs_overlap(a@, b@),
{
    let mut j: usize = 0;
    while j < b.len()
        invariant
            j <= b.len(),
            forall|k: int| 0 <= k < j ==> !seq_overlaps(a@, #[trigger] b@[k]),
        decreases b.len() - j,
    {
        if any_overlap(a, b[j]) {
            return true;
        }
        j += 1;
    }
    false
}

/// Decides exact membership of `h` in `s`.
pub fn contains_hunk(s: &Vec<Hunk>, h: Hunk) -> (r: bool)
    ensures
        r == s@.contains(h),
{
    let mut i: usize = 0;
    while i < s.len()
        invariant
            i <= s.len(),
            forall|k: int| 0 <= k < i ==> #[trigger] s@[k] != h,
        decreases s.len() - i,
    {
        if s[i] == h {
            return true;
        }
        i += 1;
    }
    false
}

/// Copies a hunk list.
pub fn copy_hunks(s: &Vec<Hunk>) -> (r: Vec<Hunk>)
    ensures
        r@ == s@,
{
    let mut r: Vec<Hunk> = Vec::new();
    let mut i: usize = 0;
    while i < s.len()
        invariant
            i <= s.len(),
            r@ == s@.take(i as int),
        decreases s.len() - i,
    {
        r.push(s[i]);
        proof {
            assert(s@.take(i + 1 as int) =~= s@.take(i as int).push(s@[i as int]));
        }
        i += 1;
    }
    proof {
        assert(s@.take(s@.len() as int) =~= s@);
    }
    r
}

} // verus!

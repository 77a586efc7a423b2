//! A virtual-branch layer over a single working directory.
//!
//! Several independent lines of work share one working directory: each
//! virtual branch owns a disjoint subset of the uncommitted change hunks,
//! can be applied to or removed from the working directory on its own,
//! can be committed from exactly its owned hunks, and is kept in sync
//! with a moving upstream base.  The controller in this crate keeps the
//! ownership ledger, the branch records and the base record consistent;
//! the object store and the transport are outside collaborators whose
//! answers are handed in as plain values.

pub mod base;
pub mod controller;
pub mod errors;
pub mod hunks;
pub mod ledger;
pub mod vbranch;

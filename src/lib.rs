//! Commit-graph event log core: classification of reference-transaction
//! updates, replay of the event log into a visibility snapshot, rebase
//! planning with in-memory execution, and the decisions of `advance`.
use vstd::prelude::*;

pub mod event;
pub mod glob;
pub mod classifier;
pub mod snapshot;
pub mod replay;
pub mod graph;
pub mod planner;
pub mod advance;
pub mod hooks;
pub mod eventlog;
pub mod laws;

verus! {

} // verus!

//! Version-number based concurrency control for a replicated SQL cluster: table
//! operations, per-transaction version grants, per-replica version frontiers, the
//! version sequencer and the dispatcher's routing decisions.
use vstd::prelude::*;

pub mod names;
pub mod operation;
pub mod error;
pub mod version;
pub mod manager;
pub mod state;
pub mod msql;
pub mod sequencer;
pub mod dispatcher;
pub mod session;

verus! {

} // verus!

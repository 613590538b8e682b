//! A worker-pool pipeline library: tasks flow from an orchestrator through a
//! shared work queue to a pool of competing workers, whose results flow back
//! through a result queue. The pipeline model, its handler interface, and the
//! cafeteria order classifier are verified, together with the companion
//! puzzle and error-handling types.

use vstd::prelude::*;

pub mod bunnies;
pub mod cafeteria;
pub mod errors;
pub mod pipeline;
pub mod puzzle;

verus! {

} // verus!

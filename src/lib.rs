//! Time-indexed area-effect engine: a registry of scheduled EMP triggers
//! compiled from attacker paths, and the per-minute resolution of those
//! triggers against the battlefield.

use vstd::prelude::*;

pub mod battlefield;
pub mod emp;
pub mod footprint;
pub mod registry;
pub mod resolve;
pub mod strike;

verus! {

/// Side length of the square battlefield grid.
pub const MAP_SIZE: usize = 40;

} // verus!

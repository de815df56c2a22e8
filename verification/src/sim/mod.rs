//! The simulated city and its rules.

use vstd::prelude::*;

pub mod agent;
pub mod city;
pub mod city_ops;
pub mod goal;
pub mod grid;
pub mod laws;
pub mod money;
pub mod rooms;
pub mod route;
pub mod save;
pub mod snapshot;
pub mod step;
pub mod systems;
pub mod world;

verus! {

/// Identity of anything spawned. No two things of a world share one; a
/// restored world deals them out anew.
#[derive(Clone, Copy, Debug, PartialEq, Eq, Structural)]
pub struct Entity {
    pub index: u64,
}

} // verus!

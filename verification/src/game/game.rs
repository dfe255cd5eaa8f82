//! The simulation's life cycle.

use vstd::prelude::*;

verus! {

/// Whether the simulation is still running.
#[derive(PartialEq, Eq, Structural, Debug, Clone, Copy)]
pub enum GameState {
    RUNNING,
    DEAD,
}

} // verus!

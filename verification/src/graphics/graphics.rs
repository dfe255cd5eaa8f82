//! Which of the two maps is on screen.

use vstd::prelude::*;

verus! {

/// The map that is shown.
#[derive(PartialEq, Eq, Structural, Debug, Clone, Copy)]
#[allow(non_camel_case_types)]
pub enum GraphicsState {
    WORLD_MAP,
    CHUNK_MAP,
}

} // verus!

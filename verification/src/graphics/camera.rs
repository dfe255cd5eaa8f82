//! The camera's pending movements.

use vstd::prelude::*;

verus! {

/// The movements asked of the camera, one flag each.
pub struct CameraMovement {
    pub left: bool,
    pub right: bool,
    pub zoom: bool,
    pub unzoom: bool,
    pub pz: bool,
    pub mz: bool,
}

impl CameraMovement {
    /// A camera at rest: no movement is asked for.
    pub fn new() -> (movement: Self)
        ensures
            movement == (CameraMovement {
                left: false,
                right: false,
                zoom: false,
                unzoom: false,
                pz: false,
                mz: false,
            }),
    {
        Self { left: false, right: false, zoom: false, unzoom: false, pz: false, mz: false }
    }
}

} // verus!

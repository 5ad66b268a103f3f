//! Plain data carried out of a block search: world-space coordinates.

use vstd::prelude::*;

verus! {

/// A position in world space.
#[derive(Clone, Copy, Debug, PartialEq, Eq, Structural)]
pub struct Coordinates {
    pub x: i32,
    pub y: i32,
    pub z: i32,
}

impl Coordinates {
    /// Builds coordinates from a three-element vector `[x, y, z]`.
    pub fn new(coord: Vec<i32>) -> (r: Self)
        requires
            coord@.len() == 3,
        ensures
            r.x == coord@[0],
            r.y == coord@[1],
            r.z == coord@[2],
    {
        Self { x: coord[0], y: coord[1], z: coord[2] }
    }
}

} // verus!

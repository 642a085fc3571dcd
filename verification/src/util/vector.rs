//! Plain integer 3-vectors used for block, chunk and direction arithmetic.

use vstd::prelude::*;

verus! {

/// A vector of three signed 32-bit integers.
#[derive(Clone, Copy, Debug, PartialEq, Eq, Hash, Structural)]
pub struct IVec3 {
    pub x: i32,
    pub y: i32,
    pub z: i32,
}

/// A vector of three unsigned 32-bit integers.
#[derive(Clone, Copy, Debug, PartialEq, Eq, Hash, Structural)]
pub struct UVec3 {
    pub x: u32,
    pub y: u32,
    pub z: u32,
}

impl IVec3 {
    /// Creates a vector from its three components.
    pub fn new(x: i32, y: i32, z: i32) -> (r: Self)
        ensures
            r.x == x && r.y == y && r.z == z,
    {
        IVec3 { x, y, z }
    }

    /// The zero vector.
    pub fn zero() -> (r: Self)
        ensures
            r.x == 0 && r.y == 0 && r.z == 0,
    {
        IVec3 { x: 0, y: 0, z: 0 }
    }

    /// True if every component is zero.
    pub fn is_zero(&self) -> (r: bool)
        ensures
            r == (self.x == 0 && self.y == 0 && self.z == 0),
    {
        self.x == 0 && self.y == 0 && self.z == 0
    }
}

impl UVec3 {
    /// Creates a vector from its three components.
    pub fn new(x: u32, y: u32, z: u32) -> (r: Self)
        ensures
            r.x == x && r.y == y && r.z == z,
    {
        UVec3 { x, y, z }
    }
}

} // verus!

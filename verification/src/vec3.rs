//! Integer 3-vectors: the exact coordinates the index works on.

use vstd::prelude::*;

verus! {

/// Coordinates are kept within this bound so that every intermediate
/// product of the intersection arithmetic fits in 128 bits.
pub const COORD_LIMIT: i64 = 268435456;

#[derive(Clone, Copy, Debug, PartialEq, Eq, Structural)]
pub struct Vec3i {
    pub x: i64,
    pub y: i64,
    pub z: i64,
}

impl Vec3i {
    pub open spec fn in_range(self) -> bool {
        &&& -COORD_LIMIT <= self.x <= COORD_LIMIT
    &&& -COORD_LIMIT <= self.y <= COORD_LIMIT
    &&& -COORD_LIMIT <= self.z <= COORD_LIMIT
    }

    pub fn new(x: i64, y: i64, z: i64) -> (r: Vec3i)
        ensures
            r == (Vec3i { x, y, z }),
    {
        Vec3i { x, y, z }
    }
}

/// The smaller of two coordinates.
pub open spec fn smin(a: int, b: int) -> int {
    if a <= b {
        a
    } else {
        b
    }
}

/// The larger of two coordinates.
pub open spec fn smax(a: int, b: int) -> int {
    if a <= b {
        b
    } else {
        a
    }
}

pub fn imin(a: i64, b: i64) -> (r: i64)
    ensures
        r == smin(a as int, b as int),
{
    if a <= b {
        a
    } else {
        b
    }
}

pub fn imax(a: i64, b: i64) -> (r: i64)
    ensures
        r == smax(a as int, b as int),
{
    if a <= b {
        b
    } else {
        a
    }
}

} // verus!

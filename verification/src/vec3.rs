//! Fixed three-component color vectors over exact integer channels.
//!
//! A channel is an unsigned integer in `0 ..= CHAN_MAX`; `CHAN_MAX` plays the
//! role of full intensity. The metric of the crate is the squared Euclidean
//! norm: it is exactly computable, and it orders distances (and ties them)
//! exactly as the Euclidean norm does, so nearest-centroid decisions and
//! tie-breaks are unchanged by the missing square root.

use vstd::prelude::*;

verus! {

/// Full intensity of one color channel.
pub const CHAN_MAX: u32 = 0x10_0000;

/// Largest squared distance between two well-formed vectors:
/// `3 * CHAN_MAX * CHAN_MAX`.
pub const DIST_SQ_MAX: u64 = 0x300_0000_0000;

#[derive(Clone, Copy, Debug, PartialEq, Eq, Structural)]
pub struct Vec3 {
    pub x: u32,
    pub y: u32,
    pub z: u32,
}

/// `|a - b|` on mathematical integers.
pub open spec fn abs_diff(a: int, b: int) -> int {
    if a >= b {
        a - b
    } else {
        b - a
    }
}

/// The squared Euclidean distance between two vectors.
pub open spec fn dist_sq_spec(a: Vec3, b: Vec3) -> int {
    let dx = abs_diff(a.x as int, b.x as int);
    let dy = abs_diff(a.y as int, b.y as int);
    let dz = abs_diff(a.z as int, b.z as int);
    dx * dx + dy * dy + dz * dz
}

impl Vec3 {
    /// Every channel lies within the fixed intensity range.
    pub open spec fn valid(self) -> bool {
        self.x <= CHAN_MAX && self.y <= CHAN_MAX && self.z <= CHAN_MAX
    }

    pub fn new(x: u32, y: u32, z: u32) -> (v: Vec3)
        ensures
            v == (Vec3 { x, y, z }),
    {
        Vec3 { x, y, z }
    }

    pub fn zero() -> (v: Vec3)
        ensures
            v == (Vec3 { x: 0u32, y: 0u32, z: 0u32 }),
    {
        Vec3 { x: 0, y: 0, z: 0 }
    }

    /// The squared Euclidean norm, the crate's distance to the origin.
    pub fn norm(&self) -> (r: u64)
        requires
            self.valid(),
        ensures
            r == dist_sq_spec(*self, Vec3 { x: 0u32, y: 0u32, z: 0u32 }),
            r <= DIST_SQ_MAX,
    {
        self.dist_sq(&Vec3 { x: 0, y: 0, z: 0 })
    }

    /// The squared Euclidean distance to `other`.
    pub fn dist_sq(&self, other: &Vec3) -> (r: u64)
        requires
            self.valid(),
            other.valid(),
        ensures
            r == dist_sq_spec(*self, *other),
            r <= DIST_SQ_MAX,
    {
        let dx = abs_diff_u32(self.x, other.x) as u64;
        let dy = abs_diff_u32(self.y, other.y) as u64;
        let dz = abs_diff_u32(self.z, other.z) as u64;
        assert(dx * dx <= 0x100_0000_0000) by (nonlinear_arith)
            requires dx <= 0x10_0000;
        assert(dy * dy <= 0x100_0000_0000) by (nonlinear_arith)
            requires dy <= 0x10_0000;
        assert(dz * dz <= 0x100_0000_0000) by (nonlinear_arith)
            requires dz <= 0x10_0000;
        dx * dx + dy * dy + dz * dz
    }
}

/// `|a - b|` on channel values.
pub fn abs_diff_u32(a: u32, b: u32) -> (r: u32)
    ensures
        r == abs_diff(a as int, b as int),
{
    if a >= b {
        a - b
    } else {
        b - a
    }
}

/// A squared distance is never negative.
pub proof fn lemma_dist_sq_nonneg(a: Vec3, b: Vec3)
    ensures
        0 <= dist_sq_spec(a, b),
{
    let dx = abs_diff(a.x as int, b.x as int);
    let dy = abs_diff(a.y as int, b.y as int);
    let dz = abs_diff(a.z as int, b.z as int);
    assert(dx * dx >= 0 && dy * dy >= 0 && dz * dz >= 0) by (nonlinear_arith)
        requires dx >= 0 && dy >= 0 && dz >= 0;
}

/// Distances never exceed `DIST_SQ_MAX` between well-formed vectors.
pub proof fn lemma_dist_sq_bounds(a: Vec3, b: Vec3)
    requires
        a.valid(),
        b.valid(),
    ensures
        0 <= dist_sq_spec(a, b) <= DIST_SQ_MAX,
{
    let dx = abs_diff(a.x as int, b.x as int);
    let dy = abs_diff(a.y as int, b.y as int);
    let dz = abs_diff(a.z as int, b.z as int);
    assert(0 <= dx <= CHAN_MAX && 0 <= dy <= CHAN_MAX && 0 <= dz <= CHAN_MAX);
    assert(dx * dx <= 0x100_0000_0000 && dx * dx >= 0) by (nonlinear_arith)
        requires 0 <= dx <= 0x10_0000;
    assert(dy * dy <= 0x100_0000_0000 && dy * dy >= 0) by (nonlinear_arith)
        requires 0 <= dy <= 0x10_0000;
    assert(dz * dz <= 0x100_0000_0000 && dz * dz >= 0) by (nonlinear_arith)
        requires 0 <= dz <= 0x10_0000;
}

} // verus!

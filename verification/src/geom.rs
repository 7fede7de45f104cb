//! Exact 3D vector arithmetic over integer coordinates.
//!
//! All geometric decisions in this crate (plane sidedness, triple-plane
//! intersection, hull visibility) are made with exact integer arithmetic,
//! so coordinates are bounded integers and intermediate products are
//! carried in `i128`. The bounds below leave every intermediate value
//! comfortably inside the machine range, and each operation's contract
//! states the exact mathematical value it returns.

use vstd::prelude::*;

verus! {

/// Largest coordinate magnitude accepted for brush plane points.
pub const COORD_BOUND: i64 = 4096;

/// Largest coordinate magnitude accepted for hull input points.
pub const HULL_BOUND: i64 = 500_000;

/// A 3D point or vector with integer coordinates.
#[derive(Clone, Copy, Debug, PartialEq, Eq, Structural)]
pub struct Vec3 {
    pub x: i64,
    pub y: i64,
    pub z: i64,
}

/// Mathematical (unbounded) counterpart of `Vec3`, used in specifications.
pub ghost struct V3 {
    pub x: int,
    pub y: int,
    pub z: int,
}

impl Vec3 {
    pub open spec fn view(self) -> V3 {
        V3 { x: self.x as int, y: self.y as int, z: self.z as int }
    }

    pub fn new(x: i64, y: i64, z: i64) -> (r: Vec3)
        ensures
            r == (Vec3 { x, y, z }),
    {
        Vec3 { x, y, z }
    }
}

/// `v` has every coordinate in `[-b, b]`.
pub open spec fn v3_in_bounds(v: V3, b: int) -> bool {
    -b <= v.x <= b && -b <= v.y <= b && -b <= v.z <= b
}

pub open spec fn s_sub(a: V3, b: V3) -> V3 {
    V3 { x: a.x - b.x, y: a.y - b.y, z: a.z - b.z }
}

pub open spec fn s_cross(a: V3, b: V3) -> V3 {
    V3 { x: a.y * b.z - a.z * b.y, y: a.z * b.x - a.x * b.z, z: a.x * b.y - a.y * b.x }
}

pub open spec fn s_dot(a: V3, b: V3) -> int {
    a.x * b.x + a.y * b.y + a.z * b.z
}

/// Orientation of `d` against the plane through `a`, `b`, `c`:
/// the sign says on which side of the oriented triangle `d` lies.
pub open spec fn s_orient(a: V3, b: V3, c: V3, d: V3) -> int {
    s_dot(s_cross(s_sub(b, a), s_sub(c, a)), s_sub(d, a))
}

/// A product of values bounded by `aa` and `bb` is bounded by `aa * bb`.
pub proof fn lemma_mul_bound(a: int, b: int, aa: int, bb: int)
    requires
        -aa <= a <= aa,
        -bb <= b <= bb,
        0 <= aa,
        0 <= bb,
    ensures
        -(aa * bb) <= a * b <= aa * bb,
{
    assert(-(aa * bb) <= a * b <= aa * bb) by (nonlinear_arith)
        requires
            -aa <= a <= aa,
            -bb <= b <= bb,
            0 <= aa,
            0 <= bb,
    ;
}

/// Every coordinate of a cross product of vectors bounded by `aa` and `bb`
/// is bounded by `2 * aa * bb`.
pub proof fn lemma_cross_bound(a: V3, b: V3, aa: int, bb: int)
    requires
        v3_in_bounds(a, aa),
        v3_in_bounds(b, bb),
        0 <= aa,
        0 <= bb,
    ensures
        v3_in_bounds(s_cross(a, b), 2 * aa * bb),
{
    assert(2 * aa * bb == 2 * (aa * bb)) by (nonlinear_arith);
    lemma_mul_bound(a.y, b.z, aa, bb);
    lemma_mul_bound(a.z, b.y, aa, bb);
    lemma_mul_bound(a.z, b.x, aa, bb);
    lemma_mul_bound(a.x, b.z, aa, bb);
    lemma_mul_bound(a.x, b.y, aa, bb);
    lemma_mul_bound(a.y, b.x, aa, bb);
}

/// A dot product of vectors bounded by `aa` and `bb` is bounded by
/// `3 * aa * bb`.
pub proof fn lemma_dot_bound(a: V3, b: V3, aa: int, bb: int)
    requires
        v3_in_bounds(a, aa),
        v3_in_bounds(b, bb),
        0 <= aa,
        0 <= bb,
    ensures
        -(3 * aa * bb) <= s_dot(a, b) <= 3 * aa * bb,
{
    assert(3 * aa * bb == 3 * (aa * bb)) by (nonlinear_arith);
    lemma_mul_bound(a.x, b.x, aa, bb);
    lemma_mul_bound(a.y, b.y, aa, bb);
    lemma_mul_bound(a.z, b.z, aa, bb);
}

/// A vertex with exact rational coordinates, stored homogeneously:
/// the point is `(x/w, y/w, z/w)`, with `w` always positive.
#[derive(Clone, Copy, Debug, PartialEq, Eq, Structural)]
pub struct HomVertex {
    pub x: i128,
    pub y: i128,
    pub z: i128,
    pub w: i128,
}

/// Mathematical counterpart of `HomVertex`, used in specifications.
pub ghost struct HomV {
    pub x: int,
    pub y: int,
    pub z: int,
    pub w: int,
}

impl HomVertex {
    pub open spec fn view(self) -> HomV {
        HomV { x: self.x as int, y: self.y as int, z: self.z as int, w: self.w as int }
    }
}

/// Exact orientation test for hull geometry, on points within `HULL_BOUND`.
pub fn orient(a: &Vec3, b: &Vec3, c: &Vec3, d: &Vec3) -> (r: i128)
    requires
        v3_in_bounds(a@, HULL_BOUND as int),
        v3_in_bounds(b@, HULL_BOUND as int),
        v3_in_bounds(c@, HULL_BOUND as int),
        v3_in_bounds(d@, HULL_BOUND as int),
    ensures
        r as int == s_orient(a@, b@, c@, d@),
        -6_000_000_000_000_000_000 <= r <= 6_000_000_000_000_000_000,
{
    let ux: i64 = b.x - a.x;
    let uy: i64 = b.y - a.y;
    let uz: i64 = b.z - a.z;
    let vx: i64 = c.x - a.x;
    let vy: i64 = c.y - a.y;
    let vz: i64 = c.z - a.z;
    let wx: i64 = d.x - a.x;
    let wy: i64 = d.y - a.y;
    let wz: i64 = d.z - a.z;
    proof {
        let bb = 2 * (HULL_BOUND as int);
        lemma_cross_bound(s_sub(b@, a@), s_sub(c@, a@), bb, bb);
        lemma_dot_bound(s_cross(s_sub(b@, a@), s_sub(c@, a@)), s_sub(d@, a@), 2 * bb * bb, bb);
        lemma_mul_bound(uy as int, vz as int, bb, bb);
        lemma_mul_bound(uz as int, vy as int, bb, bb);
        lemma_mul_bound(uz as int, vx as int, bb, bb);
        lemma_mul_bound(ux as int, vz as int, bb, bb);
        lemma_mul_bound(ux as int, vy as int, bb, bb);
        lemma_mul_bound(uy as int, vx as int, bb, bb);
    }
    let nx: i128 = (uy as i128) * (vz as i128) - (uz as i128) * (vy as i128);
    let ny: i128 = (uz as i128) * (vx as i128) - (ux as i128) * (vz as i128);
    let nz: i128 = (ux as i128) * (vy as i128) - (uy as i128) * (vx as i128);
    proof {
        let bb = 2 * (HULL_BOUND as int);
        lemma_mul_bound(nx as int, wx as int, 2 * bb * bb, bb);
        lemma_mul_bound(ny as int, wy as int, 2 * bb * bb, bb);
        lemma_mul_bound(nz as int, wz as int, 2 * bb * bb, bb);
    }
    nx * (wx as i128) + ny * (wy as i128) + nz * (wz as i128)
}

} // verus!

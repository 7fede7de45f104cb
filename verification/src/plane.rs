//! The half-plane model: a bounding plane of a convex solid.
//!
//! A plane is given by three points in winding order; the implied normal
//! is the cross product of the two edge vectors from the first point, and
//! the solid lies on the side the normal points to. With the map format's
//! point ordering this normal points toward the solid, which is why the
//! reconstruction keeps exactly the vertices whose signed distance is
//! non-negative for every plane. Surface attributes (texture name,
//! offsets, rotation, scales) ride along unchanged and play no part in
//! the geometry.

use vstd::prelude::*;

use crate::geom::{
    lemma_cross_bound,
    lemma_dot_bound,
    lemma_mul_bound,
    s_cross,
    s_dot,
    s_sub,
    v3_in_bounds,
    HomV,
    HomVertex,
    Vec3,
    COORD_BOUND,
    V3,
};

verus! {

/// An exact decimal number from the map text: `mantissa / 10^frac_digits`.
/// Surface attributes are carried in this form without rounding.
#[derive(Clone, Copy, Debug, PartialEq, Eq, Structural)]
pub struct Decimal {
    pub mantissa: i64,
    pub frac_digits: u8,
}

impl Decimal {
    pub fn new(mantissa: i64, frac_digits: u8) -> (r: Decimal)
        ensures
            r == (Decimal { mantissa, frac_digits }),
    {
        Decimal { mantissa, frac_digits }
    }

    /// The decimal for a plain integer.
    pub fn from_int(mantissa: i64) -> (r: Decimal)
        ensures
            r == (Decimal { mantissa, frac_digits: 0u8 }),
    {
        Decimal { mantissa, frac_digits: 0 }
    }
}

/// A bounding half-plane with its surface attributes.
#[derive(Clone, Debug)]
pub struct Plane {
    /// Three points in winding order; their cross product is the normal.
    pub points: [Vec3; 3],
    /// Name of the texture applied to this surface.
    pub texture: String,
    pub x_offset: Decimal,
    pub y_offset: Decimal,
    pub rotation: Decimal,
    pub x_scale: Decimal,
    pub y_scale: Decimal,
}

/// All three defining points lie within the brush coordinate bound.
pub open spec fn plane_in_bounds(p: Plane) -> bool {
    v3_in_bounds(p.points[0]@, COORD_BOUND as int) && v3_in_bounds(p.points[1]@, COORD_BOUND as int)
        && v3_in_bounds(p.points[2]@, COORD_BOUND as int)
}

/// The (unnormalised) normal implied by the winding of the three points.
pub open spec fn normal_of(p: Plane) -> V3 {
    s_cross(s_sub(p.points[1]@, p.points[0]@), s_sub(p.points[2]@, p.points[0]@))
}

/// The plane offset: `normal . p0`.
pub open spec fn offset_of(p: Plane) -> int {
    s_dot(p.points[0]@, normal_of(p))
}

/// A plane is valid when its three points are not collinear, so the
/// normal does not vanish.
pub open spec fn plane_valid(p: Plane) -> bool {
    normal_of(p) != (V3 { x: 0, y: 0, z: 0 })
}

/// Signed distance of the homogeneous point `v` from the plane, scaled by
/// the (positive) weight `v.w` and the normal's length: its sign says on
/// which side of the plane the point lies.
pub open spec fn hom_sdist(p: Plane, v: HomV) -> int {
    v.x * normal_of(p).x + v.y * normal_of(p).y + v.z * normal_of(p).z - v.w * offset_of(p)
}

impl Plane {
    pub fn new(
        points: [Vec3; 3],
        texture: String,
        x_offset: Decimal,
        y_offset: Decimal,
        rotation: Decimal,
        x_scale: Decimal,
        y_scale: Decimal,
    ) -> (r: Plane)
        ensures
            r.points == points,
            r.texture == texture,
            r.x_offset == x_offset,
            r.y_offset == y_offset,
            r.rotation == rotation,
            r.x_scale == x_scale,
            r.y_scale == y_scale,
    {
        Plane { points, texture, x_offset, y_offset, rotation, x_scale, y_scale }
    }

    /// The exact (unnormalised) normal vector.
    pub fn normal(&self) -> (r: Vec3)
        requires
            plane_in_bounds(*self),
        ensures
            r@ == normal_of(*self),
            v3_in_bounds(r@, 134_217_728),
    {
        let a = self.points[0];
        let b = self.points[1];
        let c = self.points[2];
        let ux: i64 = b.x - a.x;
        let uy: i64 = b.y - a.y;
        let uz: i64 = b.z - a.z;
        let vx: i64 = c.x - a.x;
        let vy: i64 = c.y - a.y;
        let vz: i64 = c.z - a.z;
        proof {
            let bb = 2 * (COORD_BOUND as int);
            lemma_cross_bound(s_sub(b@, a@), s_sub(c@, a@), bb, bb);
            lemma_mul_bound(uy as int, vz as int, bb, bb);
            lemma_mul_bound(uz as int, vy as int, bb, bb);
            lemma_mul_bound(uz as int, vx as int, bb, bb);
            lemma_mul_bound(ux as int, vz as int, bb, bb);
            lemma_mul_bound(ux as int, vy as int, bb, bb);
            lemma_mul_bound(uy as int, vx as int, bb, bb);
        }
        Vec3 { x: uy * vz - uz * vy, y: uz * vx - ux * vz, z: ux * vy - uy * vx }
    }

    /// The plane offset `normal . p0`.
    pub fn offset(&self) -> (r: i64)
        requires
            plane_in_bounds(*self),
        ensures
            r as int == offset_of(*self),
            -1_649_267_441_664 <= r <= 1_649_267_441_664,
    {
        let n = self.normal();
        let a = self.points[0];
        proof {
            lemma_dot_bound(a@, n@, COORD_BOUND as int, 134_217_728);
            lemma_mul_bound(a.x as int, n.x as int, COORD_BOUND as int, 134_217_728);
            lemma_mul_bound(a.y as int, n.y as int, COORD_BOUND as int, 134_217_728);
            lemma_mul_bound(a.z as int, n.z as int, COORD_BOUND as int, 134_217_728);
        }
        a.x * n.x + a.y * n.y + a.z * n.z
    }

    /// Whether the three points span a real plane.
    pub fn is_valid(&self) -> (r: bool)
        requires
            plane_in_bounds(*self),
        ensures
            r == plane_valid(*self),
    {
        let n = self.normal();
        n.x != 0 || n.y != 0 || n.z != 0
    }

    /// Exact signed distance (scaled by the weight and the normal length)
    /// of a homogeneous vertex from this plane.
    pub fn signed_distance(&self, v: &HomVertex) -> (r: i128)
        requires
            plane_in_bounds(*self),
            hom_in_bounds(v@),
        ensures
            r as int == hom_sdist(*self, v@),
    {
        let n = self.normal();
        let d = self.offset();
        proof {
            lemma_mul_bound(v.x as int, n.x as int, NUM_BOUND as int, 134_217_728);
            lemma_mul_bound(v.y as int, n.y as int, NUM_BOUND as int, 134_217_728);
            lemma_mul_bound(v.z as int, n.z as int, NUM_BOUND as int, 134_217_728);
            lemma_mul_bound(v.w as int, d as int, DET_BOUND as int, 1_649_267_441_664);
        }
        v.x * (n.x as i128) + v.y * (n.y as i128) + v.z * (n.z as i128) - v.w * (d as i128)
    }
}

/// Bound on a candidate vertex's coordinate numerators.
pub const NUM_BOUND: i128 = 178_263_365_657_094_759_585_473_888_256;

/// Bound on a candidate vertex's weight (the triple determinant).
pub const DET_BOUND: i128 = 14_507_109_835_375_550_096_474_112;

/// A homogeneous vertex produced by the reconstruction: weight positive,
/// all components within the exact-arithmetic bounds.
pub open spec fn hom_in_bounds(v: HomV) -> bool {
    -(NUM_BOUND as int) <= v.x <= NUM_BOUND as int && -(NUM_BOUND as int) <= v.y <= NUM_BOUND
        as int && -(NUM_BOUND as int) <= v.z <= NUM_BOUND as int && 1 <= v.w <= DET_BOUND as int
}

} // verus!

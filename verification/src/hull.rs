//! Incremental 3D convex hull over an integer point cloud.
//!
//! The builder seeds a tetrahedron from extreme points, then repeatedly
//! picks a face that can still see an outside point, takes the furthest
//! such point, and patches the mesh by fanning that point to the horizon
//! of the region it sees. Degenerate inputs (fewer than four points, or
//! extreme points that collapse or turn out coplanar) yield the explicit
//! empty sentinel mesh instead of a surface.
//!
//! All visibility and distance decisions are exact integer arithmetic;
//! the seed selection is specified by the fold functions below, so the
//! builder's contract pins down exactly when the sentinel is returned.

use vstd::prelude::*;

use crate::geom::{
    lemma_mul_bound,
    orient,
    s_dot,
    s_orient,
    s_sub,
    v3_in_bounds,
    Vec3,
    HULL_BOUND,
};
use crate::mesh::{attach_faces, face_alive_at, light_mem, spec_horizon, Face, Mesh};

verus! {

/// Squared distance between two points.
pub open spec fn dist2(a: Vec3, b: Vec3) -> int {
    s_dot(s_sub(a@, b@), s_sub(a@, b@))
}

/// Squared distance from `q` to the segment `a..b`, as an exact fraction
/// `(numerator, denominator)` with a positive denominator.
///
/// Beyond either end of the segment the distance to the nearer endpoint
/// is used, mirroring how the seed search scores candidate points.
pub open spec fn spec_seg_dist(a: Vec3, b: Vec3, q: Vec3) -> (int, int) {
    let line = s_sub(b@, a@);
    let p1t = s_sub(q@, a@);
    let p2t = s_sub(q@, b@);
    let t = s_dot(p1t, line);
    if t < 0 {
        (s_dot(p1t, p1t), 1)
    } else {
        let ll = s_dot(line, line);
        if t >= ll {
            (s_dot(p2t, p2t), 1)
        } else {
            (s_dot(p1t, p1t) * ll - t * t, ll)
        }
    }
}

/// Squared distance from `q` to the centroid of the triangle
/// `pa, pb, pc`, scaled by 9 to stay an integer.
pub open spec fn spec_cdist(pa: Vec3, pb: Vec3, pc: Vec3, q: Vec3) -> int {
    let dx = 3 * (q.x as int) - (pa.x as int) - (pb.x as int) - (pc.x as int);
    let dy = 3 * (q.y as int) - (pa.y as int) - (pb.y as int) - (pc.y as int);
    let dz = 3 * (q.z as int) - (pa.z as int) - (pb.z as int) - (pc.z as int);
    dx * dx + dy * dy + dz * dz
}

/// Indices of the extreme point found so far along each axis direction.
pub ghost struct Extremes {
    pub min_x: int,
    pub max_x: int,
    pub min_y: int,
    pub max_y: int,
    pub min_z: int,
    pub max_z: int,
}

/// Fold one point into the six extreme trackers. Strict comparisons keep
/// the first point found on ties.
pub open spec fn ex_step(e: Extremes, pts: Seq<Vec3>, i: int) -> Extremes {
    Extremes {
        min_x: if pts[i].x < pts[e.min_x].x {
            i
        } else {
            e.min_x
        },
        max_x: if pts[i].x > pts[e.max_x].x {
            i
        } else {
            e.max_x
        },
        min_y: if pts[i].y < pts[e.min_y].y {
            i
        } else {
            e.min_y
        },
        max_y: if pts[i].y > pts[e.max_y].y {
            i
        } else {
            e.max_y
        },
        min_z: if pts[i].z < pts[e.min_z].z {
            i
        } else {
            e.min_z
        },
        max_z: if pts[i].z > pts[e.max_z].z {
            i
        } else {
            e.max_z
        },
    }
}

/// The six extreme trackers after scanning the first `n` points.
pub open spec fn spec_extremes(pts: Seq<Vec3>, n: int) -> Extremes
    decreases n,
{
    if n <= 1 {
        Extremes { min_x: 0, max_x: 0, min_y: 0, max_y: 0, min_z: 0, max_z: 0 }
    } else {
        ex_step(spec_extremes(pts, n - 1), pts, n - 1)
    }
}

/// The trackers as a list of six candidate indices.
pub open spec fn ex_seq(e: Extremes) -> Seq<int> {
    seq![e.min_x, e.max_x, e.min_y, e.max_y, e.min_z, e.max_z]
}

/// The diameter-approximating pair chosen so far, with its squared
/// distance.
pub ghost struct PairSel {
    pub s0: int,
    pub s1: int,
    pub d: int,
}

/// Fold over the flattened candidate-pair index `t` (pair `(t/6, t%6)`,
/// considered only when `t%6 > t/6`), keeping the furthest pair.
pub open spec fn pair_upto(pts: Seq<Vec3>, b: Seq<int>, t: int) -> PairSel
    decreases t,
{
    if t <= 0 {
        PairSel { s0: b[0], s1: b[1], d: dist2(pts[b[0]], pts[b[1]]) }
    } else {
        let prev = pair_upto(pts, b, t - 1);
        let a = (t - 1) / 6;
        let c = (t - 1) % 6;
        if c > a {
            let d = dist2(pts[b[a]], pts[b[c]]);
            if d > prev.d {
                PairSel { s0: b[a], s1: b[c], d }
            } else {
                prev
            }
        } else {
            prev
        }
    }
}

/// The third seed chosen so far, with its segment distance fraction.
pub ghost struct ThirdSel {
    pub s2: int,
    pub num: int,
    pub den: int,
}

/// Fold over the candidate slots, keeping the point furthest from the
/// segment `s0..s1`; candidates that are one of the pair are skipped.
pub open spec fn third_upto(pts: Seq<Vec3>, b: Seq<int>, s0: int, s1: int, s: int) -> ThirdSel
    decreases s,
{
    if s <= 0 {
        ThirdSel { s2: b[0], num: 0, den: 1 }
    } else {
        let prev = third_upto(pts, b, s0, s1, s - 1);
        let idx = b[s - 1];
        if idx == s0 || idx == s1 {
            prev
        } else {
            let nd = spec_seg_dist(pts[s0], pts[s1], pts[idx]);
            if nd.0 * prev.den > prev.num * nd.1 {
                ThirdSel { s2: idx, num: nd.0, den: nd.1 }
            } else {
                prev
            }
        }
    }
}

/// The fourth seed chosen so far, with its scaled centroid distance.
pub ghost struct FourthSel {
    pub s3: int,
    pub d: int,
}

/// Fold over the candidate slots, keeping the point furthest from the
/// centroid of the first three seeds.
pub open spec fn fourth_upto(
    pts: Seq<Vec3>,
    b: Seq<int>,
    s0: int,
    s1: int,
    s2: int,
    s: int,
) -> FourthSel
    decreases s,
{
    if s <= 0 {
        FourthSel { s3: b[0], d: 0 }
    } else {
        let prev = fourth_upto(pts, b, s0, s1, s2, s - 1);
        let idx = b[s - 1];
        if idx == s0 || idx == s1 || idx == s2 {
            prev
        } else {
            let d = spec_cdist(pts[s0], pts[s1], pts[s2], pts[idx]);
            if d > prev.d {
                FourthSel { s3: idx, d }
            } else {
                prev
            }
        }
    }
}

/// The four seed indices for a point list.
pub ghost struct Seeds {
    pub s0: int,
    pub s1: int,
    pub s2: int,
    pub s3: int,
}

/// The deterministic seed selection: extreme candidates, then the
/// furthest pair, then the furthest point from that segment, then the
/// furthest point from the triangle centroid.
pub open spec fn spec_seeds(pts: Seq<Vec3>) -> Seeds {
    let b = ex_seq(spec_extremes(pts, pts.len() as int));
    let pr = pair_upto(pts, b, 36);
    let th = third_upto(pts, b, pr.s0, pr.s1, 6);
    let fo = fourth_upto(pts, b, pr.s0, pr.s1, th.s2, 6);
    Seeds { s0: pr.s0, s1: pr.s1, s2: th.s2, s3: fo.s3 }
}

/// The chosen seeds are four distinct points in general position: only
/// then can a starting tetrahedron be built.
pub open spec fn seeds_ok(pts: Seq<Vec3>) -> bool {
    let s = spec_seeds(pts);
    s.s0 != s.s1 && s.s0 != s.s2 && s.s0 != s.s3 && s.s1 != s.s2 && s.s1 != s.s3 && s.s2 != s.s3
        && s_orient(pts[s.s0]@, pts[s.s1]@, pts[s.s2]@, pts[s.s3]@) != 0
}

/// Every point of the list lies within the hull coordinate bound.
pub open spec fn pts_in_bounds(pts: Seq<Vec3>) -> bool {
    forall|i: int| 0 <= i < pts.len() ==> v3_in_bounds((#[trigger] pts[i])@, HULL_BOUND as int)
}

/// Every quadruple of points is coplanar.
pub open spec fn all_coplanar(pts: Seq<Vec3>) -> bool {
    forall|i: int, j: int, k: int, l: int|
        0 <= i < pts.len() && 0 <= j < pts.len() && 0 <= k < pts.len() && 0 <= l < pts.len()
            ==> #[trigger] s_orient(pts[i]@, pts[j]@, pts[k]@, pts[l]@) == 0
}

/// The extreme trackers only ever hold indices of scanned points.
proof fn lemma_extremes_in_range(pts: Seq<Vec3>, n: int)
    requires
        1 <= n <= pts.len(),
    ensures
        0 <= spec_extremes(pts, n).min_x < n,
        0 <= spec_extremes(pts, n).max_x < n,
        0 <= spec_extremes(pts, n).min_y < n,
        0 <= spec_extremes(pts, n).max_y < n,
        0 <= spec_extremes(pts, n).min_z < n,
        0 <= spec_extremes(pts, n).max_z < n,
    decreases n,
{
    if n > 1 {
        lemma_extremes_in_range(pts, n - 1);
    }
}

/// The chosen pair indices come from the candidate list.
proof fn lemma_pair_in_cands(pts: Seq<Vec3>, b: Seq<int>, t: int)
    requires
        b.len() == 6,
        0 <= t <= 36,
    ensures
        b.contains(pair_upto(pts, b, t).s0),
        b.contains(pair_upto(pts, b, t).s1),
    decreases t,
{
    if t <= 0 {
        assert(b[0] == b.index(0));
        assert(b.contains(b[0]));
        assert(b.contains(b[1]));
    } else {
        lemma_pair_in_cands(pts, b, t - 1);
        let a = (t - 1) / 6;
        let c = (t - 1) % 6;
        if c > a && 0 <= a < 6 {
            assert(b.contains(b[a]));
            assert(b.contains(b[c]));
        }
    }
}

/// The chosen third index comes from the candidate list.
proof fn lemma_third_in_cands(pts: Seq<Vec3>, b: Seq<int>, s0: int, s1: int, s: int)
    requires
        b.len() == 6,
        0 <= s <= 6,
    ensures
        b.contains(third_upto(pts, b, s0, s1, s).s2),
    decreases s,
{
    if s <= 0 {
        assert(b.contains(b[0]));
    } else {
        lemma_third_in_cands(pts, b, s0, s1, s - 1);
        assert(b.contains(b[s - 1]));
    }
}

/// The chosen fourth index comes from the candidate list.
proof fn lemma_fourth_in_cands(pts: Seq<Vec3>, b: Seq<int>, s0: int, s1: int, s2: int, s: int)
    requires
        b.len() == 6,
        0 <= s <= 6,
    ensures
        b.contains(fourth_upto(pts, b, s0, s1, s2, s).s3),
    decreases s,
{
    if s <= 0 {
        assert(b.contains(b[0]));
    } else {
        lemma_fourth_in_cands(pts, b, s0, s1, s2, s - 1);
        assert(b.contains(b[s - 1]));
    }
}

/// All four seed indices are valid point indices.
pub proof fn lemma_seeds_in_range(pts: Seq<Vec3>)
    requires
        pts.len() >= 1,
    ensures
        0 <= spec_seeds(pts).s0 < pts.len(),
        0 <= spec_seeds(pts).s1 < pts.len(),
        0 <= spec_seeds(pts).s2 < pts.len(),
        0 <= spec_seeds(pts).s3 < pts.len(),
{
    let n = pts.len() as int;
    let e = spec_extremes(pts, n);
    let b = ex_seq(e);
    lemma_extremes_in_range(pts, n);
    assert(forall|s: int| 0 <= s < 6 ==> 0 <= #[trigger] b[s] < n);
    lemma_pair_in_cands(pts, b, 36);
    let pr = pair_upto(pts, b, 36);
    lemma_third_in_cands(pts, b, pr.s0, pr.s1, 6);
    let th = third_upto(pts, b, pr.s0, pr.s1, 6);
    lemma_fourth_in_cands(pts, b, pr.s0, pr.s1, th.s2, 6);
}


/// Exact squared distance between two bounded points.
fn dist2_e(a: &Vec3, b: &Vec3) -> (r: i128)
    requires
        v3_in_bounds(a@, HULL_BOUND as int),
        v3_in_bounds(b@, HULL_BOUND as int),
    ensures
        r as int == dist2(*a, *b),
        -3_000_000_000_000 <= r <= 3_000_000_000_000,
{
    let dx: i64 = a.x - b.x;
    let dy: i64 = a.y - b.y;
    let dz: i64 = a.z - b.z;
    proof {
        let bb = 2 * (HULL_BOUND as int);
        lemma_mul_bound(dx as int, dx as int, bb, bb);
        lemma_mul_bound(dy as int, dy as int, bb, bb);
        lemma_mul_bound(dz as int, dz as int, bb, bb);
    }
    (dx as i128) * (dx as i128) + (dy as i128) * (dy as i128) + (dz as i128) * (dz as i128)
}

/// Exact squared distance from `q` to the segment `a..b`, as a fraction.
fn seg_dist_e(a: &Vec3, b: &Vec3, q: &Vec3) -> (r: (i128, i128))
    requires
        v3_in_bounds(a@, HULL_BOUND as int),
        v3_in_bounds(b@, HULL_BOUND as int),
        v3_in_bounds(q@, HULL_BOUND as int),
    ensures
        (r.0 as int, r.1 as int) == spec_seg_dist(*a, *b, *q),
        -18_000_000_000_000_000_000_000_000 <= r.0 <= 18_000_000_000_000_000_000_000_000,
        1 <= r.1 <= 3_000_000_000_000,
{
    let lx: i64 = b.x - a.x;
    let ly: i64 = b.y - a.y;
    let lz: i64 = b.z - a.z;
    let px: i64 = q.x - a.x;
    let py: i64 = q.y - a.y;
    let pz: i64 = q.z - a.z;
    proof {
        let bb = 2 * (HULL_BOUND as int);
        lemma_mul_bound(px as int, lx as int, bb, bb);
        lemma_mul_bound(py as int, ly as int, bb, bb);
        lemma_mul_bound(pz as int, lz as int, bb, bb);
    }
    let t: i128 = (px as i128) * (lx as i128) + (py as i128) * (ly as i128) + (pz as i128) * (lz
        as i128);
    if t < 0 {
        let d = dist2_e(q, a);
        return (d, 1);
    }
    proof {
        let bb = 2 * (HULL_BOUND as int);
        lemma_mul_bound(lx as int, lx as int, bb, bb);
        lemma_mul_bound(ly as int, ly as int, bb, bb);
        lemma_mul_bound(lz as int, lz as int, bb, bb);
    }
    let ll: i128 = (lx as i128) * (lx as i128) + (ly as i128) * (ly as i128) + (lz as i128) * (lz
        as i128);
    if t >= ll {
        let d = dist2_e(q, b);
        return (d, 1);
    }
    let pp = dist2_e(q, a);
    proof {
        lemma_mul_bound(pp as int, ll as int, 3_000_000_000_000, 3_000_000_000_000);
        lemma_mul_bound(t as int, t as int, 3_000_000_000_000, 3_000_000_000_000);
        assert(s_dot(s_sub(q@, a@), s_sub(q@, a@)) == dist2(*q, *a));
    }
    (pp * ll - t * t, ll)
}

/// Exact scaled squared distance from `q` to the centroid of a triangle.
fn cdist_e(pa: &Vec3, pb: &Vec3, pc: &Vec3, q: &Vec3) -> (r: i128)
    requires
        v3_in_bounds(pa@, HULL_BOUND as int),
        v3_in_bounds(pb@, HULL_BOUND as int),
        v3_in_bounds(pc@, HULL_BOUND as int),
        v3_in_bounds(q@, HULL_BOUND as int),
    ensures
        r as int == spec_cdist(*pa, *pb, *pc, *q),
        -27_000_000_000_000 <= r <= 27_000_000_000_000,
{
    let dx: i128 = 3 * (q.x as i128) - (pa.x as i128) - (pb.x as i128) - (pc.x as i128);
    let dy: i128 = 3 * (q.y as i128) - (pa.y as i128) - (pb.y as i128) - (pc.y as i128);
    let dz: i128 = 3 * (q.z as i128) - (pa.z as i128) - (pb.z as i128) - (pc.z as i128);
    proof {
        let bb = 6 * (HULL_BOUND as int);
        lemma_mul_bound(dx as int, dx as int, bb, bb);
        lemma_mul_bound(dy as int, dy as int, bb, bb);
        lemma_mul_bound(dz as int, dz as int, bb, bb);
    }
    dx * dx + dy * dy + dz * dz
}

/// Whether the fraction `n1/d1` is strictly larger than `n2/d2`.
fn frac_gt(n1: i128, d1: i128, n2: i128, d2: i128) -> (r: bool)
    requires
        -18_000_000_000_000_000_000_000_000 <= n1 <= 18_000_000_000_000_000_000_000_000,
        -18_000_000_000_000_000_000_000_000 <= n2 <= 18_000_000_000_000_000_000_000_000,
        1 <= d1 <= 3_000_000_000_000,
        1 <= d2 <= 3_000_000_000_000,
    ensures
        r == ((n1 as int) * (d2 as int) > (n2 as int) * (d1 as int)),
{
    proof {
        lemma_mul_bound(n1 as int, d2 as int, 18_000_000_000_000_000_000_000_000, 3_000_000_000_000);
        lemma_mul_bound(n2 as int, d1 as int, 18_000_000_000_000_000_000_000_000, 3_000_000_000_000);
    }
    n1 * d2 > n2 * d1
}


/// Pick the four tetrahedron seed indices for a point list, exactly as
/// `spec_seeds` describes.
#[verifier::spinoff_prover]
#[verifier::rlimit(60)]
fn select_seeds(points: &Vec<Vec3>) -> (r: (usize, usize, usize, usize))
    requires
        points@.len() >= 1,
        pts_in_bounds(points@),
    ensures
        r.0 as int == spec_seeds(points@).s0,
        r.1 as int == spec_seeds(points@).s1,
        r.2 as int == spec_seeds(points@).s2,
        r.3 as int == spec_seeds(points@).s3,
        r.0 < points@.len(),
        r.1 < points@.len(),
        r.2 < points@.len(),
        r.3 < points@.len(),
{
    let ghost pts = points@;
    let n: usize = points.len();

    // one pass over the points updates six independent extreme trackers
    let mut min_x: usize = 0;
    let mut max_x: usize = 0;
    let mut min_y: usize = 0;
    let mut max_y: usize = 0;
    let mut min_z: usize = 0;
    let mut max_z: usize = 0;
    let mut i: usize = 1;
    while i < n
        invariant
            1 <= i <= n,
            n == pts.len(),
            pts == points@,
            min_x < i && max_x < i && min_y < i && max_y < i && min_z < i && max_z < i,
            min_x as int == spec_extremes(pts, i as int).min_x,
            max_x as int == spec_extremes(pts, i as int).max_x,
            min_y as int == spec_extremes(pts, i as int).min_y,
            max_y as int == spec_extremes(pts, i as int).max_y,
            min_z as int == spec_extremes(pts, i as int).min_z,
            max_z as int == spec_extremes(pts, i as int).max_z,
        decreases n - i,
    {
        if points[i].x < points[min_x].x {
            min_x = i;
        }
        if points[i].x > points[max_x].x {
            max_x = i;
        }
        if points[i].y < points[min_y].y {
            min_y = i;
        }
        if points[i].y > points[max_y].y {
            max_y = i;
        }
        if points[i].z < points[min_z].z {
            min_z = i;
        }
        if points[i].z > points[max_z].z {
            max_z = i;
        }
        i = i + 1;
    }
    let mut bnds: Vec<usize> = Vec::new();
    bnds.push(min_x);
    bnds.push(max_x);
    bnds.push(min_y);
    bnds.push(max_y);
    bnds.push(min_z);
    bnds.push(max_z);
    let ghost bq: Seq<int> = ex_seq(spec_extremes(pts, n as int));
    proof {
        assert(bnds@.len() == 6);
        assert forall|s: int| 0 <= s < 6 implies (#[trigger] bnds@[s]) as int == bq[s] && bq[s]
            < pts.len() by {}
    }

    // the furthest pair among the six candidates
    let mut s0: usize = bnds[0];
    let mut s1: usize = bnds[1];
    let mut best_d: i128 = dist2_e(&points[bnds[0]], &points[bnds[1]]);
    let mut t: usize = 0;
    while t < 36
        invariant
            0 <= t <= 36,
            pts == points@,
            n == pts.len(),
            bnds@.len() == 6,
            forall|s: int| 0 <= s < 6 ==> (#[trigger] bnds@[s]) as int == bq[s] && bq[s]
                < pts.len(),
            pts_in_bounds(pts),
            s0 as int == pair_upto(pts, bq, t as int).s0,
            s1 as int == pair_upto(pts, bq, t as int).s1,
            best_d as int == pair_upto(pts, bq, t as int).d,
            s0 < n && s1 < n,
        decreases 36 - t,
    {
        let a: usize = t / 6;
        let c: usize = t % 6;
        if c > a {
            let d = dist2_e(&points[bnds[a]], &points[bnds[c]]);
            if d > best_d {
                s0 = bnds[a];
                s1 = bnds[c];
                best_d = d;
            }
        }
        t = t + 1;
    }

    // the candidate furthest from the segment between the pair
    let mut s2: usize = bnds[0];
    let mut best_n: i128 = 0;
    let mut best_de: i128 = 1;
    let mut s: usize = 0;
    while s < 6
        invariant
            0 <= s <= 6,
            pts == points@,
            n == pts.len(),
            bnds@.len() == 6,
            forall|s2i: int| 0 <= s2i < 6 ==> (#[trigger] bnds@[s2i]) as int == bq[s2i] && bq[s2i]
                < pts.len(),
            pts_in_bounds(pts),
            s0 < n && s1 < n && s2 < n,
            s0 as int == spec_seeds(pts).s0,
            s1 as int == spec_seeds(pts).s1,
            s2 as int == third_upto(pts, bq, s0 as int, s1 as int, s as int).s2,
            best_n as int == third_upto(pts, bq, s0 as int, s1 as int, s as int).num,
            best_de as int == third_upto(pts, bq, s0 as int, s1 as int, s as int).den,
            -18_000_000_000_000_000_000_000_000 <= best_n <= 18_000_000_000_000_000_000_000_000,
            1 <= best_de <= 3_000_000_000_000,
        decreases 6 - s,
    {
        let idx = bnds[s];
        if idx != s0 && idx != s1 {
            let nd = seg_dist_e(&points[s0], &points[s1], &points[idx]);
            if frac_gt(nd.0, nd.1, best_n, best_de) {
                s2 = idx;
                best_n = nd.0;
                best_de = nd.1;
            }
        }
        s = s + 1;
    }

    // the candidate furthest from the centroid of the first three
    let mut s3: usize = bnds[0];
    let mut best_c: i128 = 0;
    s = 0;
    while s < 6
        invariant
            0 <= s <= 6,
            pts == points@,
            n == pts.len(),
            bnds@.len() == 6,
            forall|s2i: int| 0 <= s2i < 6 ==> (#[trigger] bnds@[s2i]) as int == bq[s2i] && bq[s2i]
                < pts.len(),
            pts_in_bounds(pts),
            s0 < n && s1 < n && s2 < n && s3 < n,
            s0 as int == spec_seeds(pts).s0,
            s1 as int == spec_seeds(pts).s1,
            s2 as int == spec_seeds(pts).s2,
            s3 as int == fourth_upto(pts, bq, s0 as int, s1 as int, s2 as int, s as int).s3,
            best_c as int == fourth_upto(pts, bq, s0 as int, s1 as int, s2 as int, s as int).d,
        decreases 6 - s,
    {
        let idx = bnds[s];
        if idx != s0 && idx != s1 && idx != s2 {
            let d = cdist_e(&points[s0], &points[s1], &points[s2], &points[idx]);
            if d > best_c {
                s3 = idx;
                best_c = d;
            }
        }
        s = s + 1;
    }

    (s0, s1, s2, s3)
}



/// Face `f` can see point `q` of the cloud: `q` lies strictly outside
/// the plane through `f`'s corners.
pub open spec fn sees(pts: Seq<Vec3>, f: Face, q: int) -> bool {
    s_orient(pts[f.a as int]@, pts[f.b as int]@, pts[f.c as int]@, pts[q]@) > 0
}

/// Some alive face of the surface sees point `q`.
pub open spec fn seen_by_surface(pts: Seq<Vec3>, faces: Seq<Face>, q: int) -> bool {
    exists|id: int| face_alive_at(faces, id) && #[trigger] sees(pts, faces[id], q)
}

/// Face id `id` still waits in the unprocessed part of the queue.
pub open spec fn pending(queue: Seq<usize>, qi: int, id: int) -> bool {
    exists|j: int| qi <= j < queue.len() && (#[trigger] queue[j]) as int == id
}

/// The working set holds exactly the points that some face still sees,
/// except hull corners (`used`) and points given up on (`dropped`).
pub open spec fn working_exact(
    pts: Seq<Vec3>,
    faces: Seq<Face>,
    working: Seq<usize>,
    used: Seq<usize>,
    dropped: Seq<usize>,
) -> bool {
    forall|q: int|
        #![trigger light_mem(working, q)]
        #![trigger seen_by_surface(pts, faces, q)]
        0 <= q < pts.len() ==> (light_mem(working, q) <==> (!light_mem(used, q) && !light_mem(
            dropped,
            q,
        ) && seen_by_surface(pts, faces, q)))
}

/// Every face that sees a working point still waits in the queue: once
/// the queue runs dry, no face sees any remaining candidate.
pub open spec fn obligations_queued(
    pts: Seq<Vec3>,
    faces: Seq<Face>,
    working: Seq<usize>,
    queue: Seq<usize>,
    qi: int,
) -> bool {
    forall|id: int, q: int|
        face_alive_at(faces, id) && 0 <= q < pts.len() && light_mem(working, q) && #[trigger] sees(
            pts,
            faces[id],
            q,
        ) ==> pending(queue, qi, id)
}

/// Two duplicate-free disjoint index lists below `n`, plus one fresh
/// index, still fit in `n` slots.
proof fn lemma_room(used: Seq<usize>, dropped: Seq<usize>, x: usize, n: nat)
    requires
        used.no_duplicates(),
        dropped.no_duplicates(),
        forall|k: int| 0 <= k < used.len() ==> ((#[trigger] used[k]) as int) < n,
        forall|k: int| 0 <= k < dropped.len() ==> ((#[trigger] dropped[k]) as int) < n,
        forall|k: int| 0 <= k < used.len() ==> !light_mem(dropped, (#[trigger] used[k]) as int),
        !light_mem(used, x as int),
        !light_mem(dropped, x as int),
        (x as int) < n,
    ensures
        used.len() + dropped.len() + 1 <= n,
{
    let all = used + dropped + seq![x];
    assert forall|i: int, j: int| 0 <= i < j < all.len() implies all[i] != all[j] by {
        let nu = used.len() as int;
        let nd = dropped.len() as int;
        if j < nu {
            assert(all[i] == used[i] && all[j] == used[j]);
        } else if j < nu + nd {
            assert(all[j] == dropped[j - nu]);
            if i < nu {
                assert(!light_mem(dropped, used[i] as int));
            } else {
                assert(all[i] == dropped[i - nu]);
            }
        } else {
            assert(all[j] == x);
            if i < nu {
                assert(!light_mem(used, x as int) && all[i] == used[i]);
            } else {
                assert(!light_mem(dropped, x as int) && all[i] == dropped[i - nu]);
            }
        }
    }
    let ints = all.map_values(|u: usize| u as int);
    assert forall|i: int, j: int| 0 <= i < j < ints.len() implies ints[i] != ints[j] by {
        assert(all[i] != all[j]);
    }
    assert(ints.no_duplicates());
    ints.unique_seq_to_set();
    vstd::set_lib::lemma_int_range(0, n as int);
    assert forall|y: int| ints.to_set().contains(y) implies vstd::set_lib::set_int_range(
        0,
        n as int,
    ).contains(y) by {
        let idx = choose|idx: int| 0 <= idx < ints.len() && ints[idx] == y;
        let nu = used.len() as int;
        let nd = dropped.len() as int;
        if idx < nu {
            assert(all[idx] == used[idx]);
        } else if idx < nu + nd {
            assert(all[idx] == dropped[idx - nu]);
        } else {
            assert(all[idx] == x);
        }
    }
    vstd::set_lib::lemma_len_subset(ints.to_set(), vstd::set_lib::set_int_range(0, n as int));
}

/// Linear membership scan over a list of point indices.
fn idx_list_contains(v: &Vec<usize>, x: usize) -> (r: bool)
    ensures
        r == light_mem(v@, x as int),
{
    let mut k: usize = 0;
    while k < v.len()
        invariant
            0 <= k <= v@.len(),
            forall|k2: int| 0 <= k2 < k ==> v@[k2] != x,
        decreases v@.len() - k,
    {
        if v[k] == x {
            assert(v@[k as int] == x);
            return true;
        }
        k = k + 1;
    }
    false
}

/// Whether any alive face of the mesh sees point `q`.
fn surface_sees(mesh: &Mesh, q: usize) -> (r: bool)
    requires
        mesh.inv(),
        pts_in_bounds(mesh.points@),
        q < mesh.points@.len(),
    ensures
        r == seen_by_surface(mesh.points@, mesh.faces@, q as int),
{
    let mut fi: usize = 0;
    while fi < mesh.faces.len()
        invariant
            mesh.inv(),
            pts_in_bounds(mesh.points@),
            q < mesh.points@.len(),
            0 <= fi <= mesh.faces@.len(),
            forall|id: int| 0 <= id < fi ==> !(face_alive_at(mesh.faces@, id) && #[trigger] sees(
                mesh.points@,
                mesh.faces@[id],
                q as int,
            )),
        decreases mesh.faces@.len() - fi,
    {
        let f = mesh.faces[fi];
        if f.alive {
            proof {
                assert(face_alive_at(mesh.faces@, fi as int));
            }
            let ov = orient(&mesh.points[f.a], &mesh.points[f.b], &mesh.points[f.c], &mesh.points[q]);
            if ov > 0 {
                assert(sees(mesh.points@, mesh.faces@[fi as int], q as int));
                return true;
            }
        }
        fi = fi + 1;
    }
    false
}


/// Build the convex hull of a point cloud.
///
/// Returns the mesh together with the indices of any points the builder
/// had to give up on (a point whose attachment was geometrically
/// inconsistent, dropped as the error handling prescribes). On the
/// inputs the algorithm is meant for that list is empty, and the
/// contract then guarantees full containment: every input point lies on
/// or inside the plane of every face.
///
/// Fewer than four points, or a degenerate seed selection (collapsing or
/// coplanar extreme points), yield the sentinel empty mesh; the contract
/// states that the sentinel appears in exactly those cases. Any other
/// result is a closed, consistently wound triangle mesh over the given
/// points; on exactly four points it is the seeded tetrahedron itself.
///
/// After every successful patch the working set is re-derived against
/// the whole surface, so no point outside a surviving face is ever
/// discarded; when a patch is refused, only the offending point is given
/// up and the face is examined again for its other candidates.
///
/// Coordinates must lie within `HULL_BOUND` so that the exact visibility
/// and distance comparisons cannot overflow.
#[verifier::rlimit(100)]
pub fn build_convex_hull(points: Vec<Vec3>) -> (r: (Mesh, Vec<usize>))
    requires
        pts_in_bounds(points@),
    ensures
        points@.len() < 4 ==> r.0.spec_is_sentinel() && r.1@.len() == 0,
        points@.len() >= 4 ==> (r.0.spec_is_sentinel() <==> !seeds_ok(points@)),
        points@.len() >= 4 && all_coplanar(points@) ==> r.0.spec_is_sentinel(),
        !r.0.spec_is_sentinel() ==> r.0.points@ == points@ && r.0.inv() && (exists|i: int|
            face_alive_at(r.0.faces@, i)),
        points@.len() == 4 && !r.0.spec_is_sentinel() ==> r.0.faces@.len() == 4 && (forall|i: int|
            0 <= i < 4 ==> face_alive_at(r.0.faces@, i)),
        forall|id: int, q: int|
            face_alive_at(r.0.faces@, id) && 0 <= q < points@.len() && !light_mem(r.1@, q) ==> !(
            #[trigger] sees(points@, r.0.faces@[id], q)),
        forall|k: int| 0 <= k < r.1@.len() ==> ((#[trigger] r.1@[k]) as int) < points@.len(),
{
    let ghost pts = points@;
    let n: usize = points.len();
    if n < 4 {
        return (Mesh::empty(), Vec::new());
    }

    let (s0, s1, s2, s3) = select_seeds(&points);
    let o = orient(&points[s0], &points[s1], &points[s2], &points[s3]);
    if s0 == s1 || s0 == s2 || s0 == s3 || s1 == s2 || s1 == s3 || s2 == s3 || o == 0 {
        // degenerate extremes: fewer than four distinct seeds, or all on
        // one plane
        return (Mesh::empty(), Vec::new());
    }
    proof {
        if all_coplanar(pts) {
            assert(s_orient(pts[s0 as int]@, pts[s1 as int]@, pts[s2 as int]@, pts[s3 as int]@)
                == 0);
            assert(false);
        }
    }

    // wind the starting tetrahedron so its faces point away from the
    // fourth seed
    let mut mesh = if o > 0 {
        Mesh::from_tetrahedron(points, s3, s0, s1, s2)
    } else {
        Mesh::from_tetrahedron(points, s3, s1, s0, s2)
    };
    let ghost mesh0 = mesh;

    // the four hull corners so far, and the points given up on
    let mut used: Vec<usize> = Vec::new();
    used.push(s0);
    used.push(s1);
    used.push(s2);
    used.push(s3);
    let mut dropped: Vec<usize> = Vec::new();

    // the working set: every point outside the surface, corners excluded
    let mut working: Vec<usize> = Vec::new();
    let mut i: usize = 0;
    while i < n
        invariant
            mesh.inv(),
            mesh == mesh0,
            mesh.points@ == pts,
            pts_in_bounds(pts),
            n == pts.len(),
            0 <= i <= n,
            mesh.faces@.len() == 4,
            forall|fa: int| 0 <= fa < 4 ==> face_alive_at(mesh.faces@, fa),
            used@ == seq![s0, s1, s2, s3],
            dropped@.len() == 0,
            s0 < n && s1 < n && s2 < n && s3 < n,
            s0 != s1 && s0 != s2 && s0 != s3 && s1 != s2 && s1 != s3 && s2 != s3,
            forall|w: int| 0 <= w < working@.len() ==> ((#[trigger] working@[w]) as int) < i,
            working@.no_duplicates(),
            forall|q: int|
                #![trigger light_mem(working@, q)]
                #![trigger seen_by_surface(pts, mesh.faces@, q)]
                0 <= q < i ==> (light_mem(working@, q) <==> (!light_mem(used@, q) && !light_mem(
                    dropped@,
                    q,
                ) && seen_by_surface(pts, mesh.faces@, q))),
            pts.len() == 4 ==> working@.len() == 0,
        decreases n - i,
    {
        let ghost wprev = working@;
        if i != s0 && i != s1 && i != s2 && i != s3 {
            proof {
                // with four points the four distinct seeds cover them all
                if pts.len() == 4 {
                    assert(i as int == s0 as int || i as int == s1 as int || i as int == s2 as int
                        || i as int == s3 as int);
                }
                assert(!light_mem(used@, i as int));
            }
            if surface_sees(&mesh, i) {
                working.push(i);
            }
        } else {
            proof {
                assert(light_mem(used@, i as int));
            }
        }
        proof {
            assert forall|q: int|
                #![trigger light_mem(working@, q)]
                #![trigger seen_by_surface(pts, mesh.faces@, q)]
                0 <= q < i + 1 implies (light_mem(working@, q) <==> (!light_mem(used@, q)
                && !light_mem(dropped@, q) && seen_by_surface(pts, mesh.faces@, q))) by {
                if q < i {
                    if light_mem(working@, q) {
                        let k = choose|k: int|
                            0 <= k < working@.len() && (#[trigger] working@[k]) as int == q;
                        if k < wprev.len() {
                            assert(wprev[k] as int == q);
                            assert(light_mem(wprev, q));
                        } else {
                            assert(working@[k] == i);
                            assert(false);
                        }
                    }
                    if light_mem(wprev, q) {
                        let k = choose|k: int|
                            0 <= k < wprev.len() && (#[trigger] wprev[k]) as int == q;
                        assert(working@[k] as int == q);
                        assert(light_mem(working@, q));
                    }
                } else {
                    if working@.len() > wprev.len() {
                        assert(working@[working@.len() - 1] == i);
                        assert(light_mem(working@, q));
                    } else {
                        if light_mem(working@, q) {
                            let k = choose|k: int|
                                0 <= k < working@.len() && (#[trigger] working@[k]) as int == q;
                            assert((wprev[k] as int) < i);
                            assert(false);
                        }
                    }
                }
            }
        }
        i = i + 1;
    }
    assert(working_exact(pts, mesh.faces@, working@, used@, dropped@));
    assert(face_alive_at(mesh.faces@, 0));

    // the face queue; stale ids are skipped when popped
    let mut queue: Vec<usize> = Vec::new();
    queue.push(0);
    queue.push(1);
    queue.push(2);
    queue.push(3);
    let mut qi: usize = 0;
    proof {
        assert forall|id: int, q: int|
            face_alive_at(mesh.faces@, id) && 0 <= q < pts.len() && light_mem(working@, q)
                && #[trigger] sees(pts, mesh.faces@[id], q) implies pending(queue@, 0, id) by {
            assert(0 <= id < 4);
            assert(queue@[id] as int == id);
        }
        assert(obligations_queued(pts, mesh.faces@, working@, queue@, 0));
    }
    let ghost started_empty = working@.len() == 0;

    while qi < queue.len()
        invariant
            mesh.inv(),
            mesh.points@ == pts,
            pts_in_bounds(pts),
            pts.len() == n,
            n >= 4,
            exists|fa: int| face_alive_at(mesh.faces@, fa),
            qi <= queue@.len(),
            forall|w: int| 0 <= w < working@.len() ==> ((#[trigger] working@[w]) as int) < n,
            working@.no_duplicates(),
            used@.no_duplicates(),
            dropped@.no_duplicates(),
            forall|k: int| 0 <= k < used@.len() ==> ((#[trigger] used@[k]) as int) < n,
            forall|k: int| 0 <= k < dropped@.len() ==> ((#[trigger] dropped@[k]) as int) < n,
            forall|k: int|
                0 <= k < used@.len() ==> !light_mem(dropped@, (#[trigger] used@[k]) as int),
            used@.len() + dropped@.len() <= n,
            working_exact(pts, mesh.faces@, working@, used@, dropped@),
            obligations_queued(pts, mesh.faces@, working@, queue@, qi as int),
            started_empty ==> working@.len() == 0 && mesh == mesh0,
        decreases n - used@.len() - dropped@.len(), queue@.len() - qi,
    {
        let ghost hw0 = working@;
        let ghost hq0 = queue@;
        let ghost hqi0 = qi as int;
        let ghost hf0 = mesh.faces@;
        let ghost hu0 = used@;
        let ghost hd0 = dropped@;
        let fid = queue[qi];
        qi = qi + 1;
        if !mesh.face_alive(fid) {
            proof {
                assert forall|id: int, q: int|
                    face_alive_at(hf0, id) && 0 <= q < pts.len() && light_mem(hw0, q)
                        && #[trigger] sees(pts, hf0[id], q) implies pending(hq0, hqi0 + 1, id) by {
                    let j = choose|j: int|
                        hqi0 <= j < hq0.len() && (#[trigger] hq0[j]) as int == id;
                    if j == hqi0 {
                        assert(id == fid as int);
                        assert(false);
                    }
                }
                assert(obligations_queued(pts, mesh.faces@, working@, queue@, qi as int));
            }
            continue;
        }
        let f = mesh.faces[fid];
        proof {
            assert(face_alive_at(hf0, fid as int));
            assert(f == hf0[fid as int]);
        }

        // the furthest working point this face can see
        let mut best: i128 = 0;
        let mut best_pos: usize = 0;
        let mut found: bool = false;
        let mut w: usize = 0;
        while w < working.len()
            invariant
                mesh.inv(),
                mesh.points@ == pts,
                pts_in_bounds(pts),
                pts.len() == n,
                fid < mesh.faces@.len(),
                f == mesh.faces@[fid as int],
                f.a < n && f.b < n && f.c < n,
                0 <= w <= working@.len(),
                forall|w2: int| 0 <= w2 < working@.len() ==> ((#[trigger] working@[w2]) as int) < n,
                found ==> best_pos < working@.len() && sees(
                    pts,
                    f,
                    working@[best_pos as int] as int,
                ),
                !found ==> best == 0,
                !found ==> forall|w2: int|
                    0 <= w2 < w ==> !sees(pts, f, ((#[trigger] working@[w2]) as int)),
            decreases working@.len() - w,
        {
            let q = working[w];
            let ov = orient(
                &mesh.points[f.a],
                &mesh.points[f.b],
                &mesh.points[f.c],
                &mesh.points[q],
            );
            if ov > 0 {
                if ov > best {
                    best = ov;
                    best_pos = w;
                    found = true;
                    proof {
                        assert(sees(pts, f, working@[w as int] as int));
                    }
                }
            } else {
                proof {
                    assert(!sees(pts, f, working@[w as int] as int));
                }
            }
            w = w + 1;
        }
        if !found {
            proof {
                assert forall|id: int, q: int|
                    face_alive_at(hf0, id) && 0 <= q < pts.len() && light_mem(hw0, q)
                        && #[trigger] sees(pts, hf0[id], q) implies pending(hq0, hqi0 + 1, id) by {
                    let j = choose|j: int|
                        hqi0 <= j < hq0.len() && (#[trigger] hq0[j]) as int == id;
                    if j == hqi0 {
                        assert(id == fid as int);
                        let k = choose|k: int|
                            0 <= k < hw0.len() && (#[trigger] hw0[k]) as int == q;
                        assert(!sees(pts, f, hw0[k] as int));
                        assert(false);
                    }
                }
                assert(obligations_queued(pts, mesh.faces@, working@, queue@, qi as int));
            }
            continue;
        }
        let max_pt: usize = working[best_pos];
        proof {
            assert(light_mem(hw0, max_pt as int));
            assert(sees(pts, hf0[fid as int], max_pt as int));
            assert(seen_by_surface(pts, hf0, max_pt as int));
            assert(!light_mem(used@, max_pt as int) && !light_mem(dropped@, max_pt as int));
        }

        // every alive face that sees the chosen point is replaced
        let mut light: Vec<usize> = Vec::new();
        let mut fi: usize = 0;
        while fi < mesh.faces.len()
            invariant
                mesh.inv(),
                mesh.points@ == pts,
                pts_in_bounds(pts),
                pts.len() == n,
                max_pt < n,
                0 <= fi <= mesh.faces@.len(),
                forall|id: int|
                    0 <= id < fi && face_alive_at(mesh.faces@, id) && sees(
                        pts,
                        #[trigger] mesh.faces@[id],
                        max_pt as int,
                    ) ==> light_mem(light@, id),
            decreases mesh.faces@.len() - fi,
        {
            let ghost lprev = light@;
            let lf = mesh.faces[fi];
            let mut is_light: bool = false;
            if lf.alive {
                proof {
                    assert(face_alive_at(mesh.faces@, fi as int));
                }
                let ov = orient(
                    &mesh.points[lf.a],
                    &mesh.points[lf.b],
                    &mesh.points[lf.c],
                    &mesh.points[max_pt],
                );
                if ov > 0 {
                    is_light = true;
                }
            }
            if is_light {
                light.push(fi);
                proof {
                    assert(light@[light@.len() - 1] == fi);
                }
            }
            proof {
                assert forall|id: int|
                    0 <= id < fi + 1 && face_alive_at(mesh.faces@, id) && sees(
                        pts,
                        #[trigger] mesh.faces@[id],
                        max_pt as int,
                    ) implies light_mem(light@, id) by {
                    if id < fi {
                        let k = choose|k: int|
                            0 <= k < lprev.len() && (#[trigger] lprev[k]) as int == id;
                        assert(light@[k] as int == id);
                    }
                }
            }
            fi = fi + 1;
        }

        match mesh.attach_point(max_pt, &light) {
            Ok(new_ids) => {
                let ghost hh = spec_horizon(hf0, light@, light@.len() as int);
                proof {
                    assert(mesh.faces@ == attach_faces(hf0, light@, hh, max_pt));
                }
                used.push(max_pt);
                proof {
                    lemma_room(hu0, hd0, max_pt, n as nat);
                    assert(used@ == hu0.push(max_pt));
                    assert(used@[used@.len() - 1] == max_pt);
                    assert forall|k: int|
                        0 <= k < hu0.len() implies (#[trigger] used@[k]) == hu0[k] by {}
                }

                // rebuild the working set against the patched surface
                let mut nw: Vec<usize> = Vec::new();
                let mut q: usize = 0;
                while q < n
                    invariant
                        mesh.inv(),
                        mesh.points@ == pts,
                        pts_in_bounds(pts),
                        pts.len() == n,
                        0 <= q <= n,
                        forall|w2: int| 0 <= w2 < nw@.len() ==> ((#[trigger] nw@[w2]) as int) < q,
                        nw@.no_duplicates(),
                        forall|q2: int|
                            #![trigger light_mem(nw@, q2)]
                            #![trigger seen_by_surface(pts, mesh.faces@, q2)]
                            0 <= q2 < q ==> (light_mem(nw@, q2) <==> (!light_mem(used@, q2)
                                && !light_mem(dropped@, q2) && seen_by_surface(
                                pts,
                                mesh.faces@,
                                q2,
                            ))),
                    decreases n - q,
                {
                    let ghost nwprev = nw@;
                    let in_used = idx_list_contains(&used, q);
                    let in_dropped = idx_list_contains(&dropped, q);
                    if !in_used && !in_dropped {
                        if surface_sees(&mesh, q) {
                            nw.push(q);
                        }
                    }
                    proof {
                        assert forall|q2: int|
                            #![trigger light_mem(nw@, q2)]
                            #![trigger seen_by_surface(pts, mesh.faces@, q2)]
                            0 <= q2 < q + 1 implies (light_mem(nw@, q2) <==> (!light_mem(
                            used@,
                            q2,
                        ) && !light_mem(dropped@, q2) && seen_by_surface(
                            pts,
                            mesh.faces@,
                            q2,
                        ))) by {
                            if q2 < q {
                                if light_mem(nw@, q2) {
                                    let k = choose|k: int|
                                        0 <= k < nw@.len() && (#[trigger] nw@[k]) as int == q2;
                                    if k < nwprev.len() {
                                        assert(nwprev[k] as int == q2);
                                        assert(light_mem(nwprev, q2));
                                    } else {
                                        assert(nw@[k] == q);
                                        assert(false);
                                    }
                                }
                                if light_mem(nwprev, q2) {
                                    let k = choose|k: int|
                                        0 <= k < nwprev.len() && (#[trigger] nwprev[k]) as int
                                            == q2;
                                    assert(nw@[k] as int == q2);
                                    assert(light_mem(nw@, q2));
                                }
                            } else {
                                if nw@.len() > nwprev.len() {
                                    assert(nw@[nw@.len() - 1] == q);
                                    assert(light_mem(nw@, q2));
                                } else {
                                    if light_mem(nw@, q2) {
                                        let k = choose|k: int|
                                            0 <= k < nw@.len() && (#[trigger] nw@[k]) as int
                                                == q2;
                                        assert((nwprev[k] as int) < q);
                                        assert(false);
                                    }
                                }
                            }
                        }
                    }
                    q = q + 1;
                }
                working = nw;

                let ghost qlen0 = queue@.len() as int;
                let mut k2: usize = 0;
                while k2 < new_ids.len()
                    invariant
                        0 <= k2 <= new_ids@.len(),
                        queue@.len() == qlen0 + k2,
                        qi <= qlen0,
                        forall|j: int| 0 <= j < qlen0 ==> (#[trigger] queue@[j]) == hq0[j],
                        qlen0 == hq0.len(),
                        forall|k3: int| 0 <= k3 < k2 ==> (#[trigger] queue@[qlen0 + k3])
                            == new_ids@[k3],
                    decreases new_ids@.len() - k2,
                {
                    queue.push(new_ids[k2]);
                    k2 = k2 + 1;
                }

                proof {
                    // the fan faces wait in the queue; every surviving
                    // face with a still-visible candidate already did
                    assert(face_alive_at(mesh.faces@, new_ids@[0] as int));
                    assert forall|id: int, q2: int|
                        face_alive_at(mesh.faces@, id) && 0 <= q2 < pts.len() && light_mem(
                            working@,
                            q2,
                        ) && #[trigger] sees(pts, mesh.faces@[id], q2) implies pending(
                        queue@,
                        qi as int,
                        id,
                    ) by {
                        if id >= hf0.len() {
                            let k3 = id - hf0.len();
                            assert(0 <= k3 < hh.len());
                            assert(new_ids@[k3] as int == hf0.len() + k3);
                            assert(queue@[qlen0 + k3] == new_ids@[k3]);
                            assert(pending(queue@, qi as int, id));
                        } else {
                            assert(mesh.faces@[id] == attach_faces(hf0, light@, hh, max_pt)[id]);
                            assert(!light_mem(light@, id));
                            assert(mesh.faces@[id] == hf0[id]);
                            assert(face_alive_at(hf0, id));
                            // the candidate was already outside this face
                            assert(!light_mem(used@, q2));
                            assert(used@[used@.len() - 1] == max_pt);
                            assert(q2 != max_pt as int);
                            assert(!light_mem(hu0, q2)) by {
                                if light_mem(hu0, q2) {
                                    let k = choose|k: int|
                                        0 <= k < hu0.len() && (#[trigger] hu0[k]) as int == q2;
                                    assert(used@[k] as int == q2);
                                }
                            }
                            assert(!light_mem(hd0, q2));
                            assert(sees(pts, hf0[id], q2));
                            assert(seen_by_surface(pts, hf0, q2));
                            assert(working_exact(pts, hf0, hw0, hu0, hd0));
                            assert(light_mem(hw0, q2));
                            assert(pending(hq0, hqi0, id));
                            let j = choose|j: int|
                                hqi0 <= j < hq0.len() && (#[trigger] hq0[j]) as int == id;
                            if j == hqi0 {
                                assert(id == fid as int);
                                assert(sees(pts, mesh.faces@[fid as int], max_pt as int));
                                assert(light_mem(light@, fid as int));
                                assert(false);
                            } else {
                                assert(queue@[j] == hq0[j]);
                                assert(pending(queue@, qi as int, id));
                            }
                        }
                    }
                    assert(obligations_queued(pts, mesh.faces@, working@, queue@, qi as int));
                }
            },
            Err(_) => {
                // the horizon was inconsistent: give the point up, and
                // look at this face again for its other candidates
                proof {
                    lemma_room(hu0, hd0, max_pt, n as nat);
                }
                dropped.push(max_pt);
                working.remove(best_pos);
                queue.push(fid);
                proof {
                    assert(dropped@ == hd0.push(max_pt));
                    assert(dropped@[dropped@.len() - 1] == max_pt);
                    assert(working@ == hw0.remove(best_pos as int));
                    hw0.remove_ensures(best_pos as int);
                    assert forall|q2: int|
                        #![trigger light_mem(working@, q2)]
                        #![trigger seen_by_surface(pts, mesh.faces@, q2)]
                        0 <= q2 < pts.len() implies (light_mem(working@, q2) <==> (!light_mem(
                        used@,
                        q2,
                    ) && !light_mem(dropped@, q2) && seen_by_surface(pts, mesh.faces@, q2))) by {
                        if q2 == max_pt as int {
                            assert(light_mem(dropped@, q2));
                            if light_mem(working@, q2) {
                                let k = choose|k: int|
                                    0 <= k < working@.len() && (#[trigger] working@[k]) as int
                                        == q2;
                                if k < best_pos {
                                    assert(working@[k] == hw0[k]);
                                    assert(hw0[k] != hw0[best_pos as int]);
                                } else {
                                    assert(working@[k] == hw0[k + 1]);
                                    assert(hw0[k + 1] != hw0[best_pos as int]);
                                }
                                assert(false);
                            }
                        } else {
                            assert(light_mem(dropped@, q2) <==> light_mem(hd0, q2)) by {
                                if light_mem(hd0, q2) {
                                    let k = choose|k: int|
                                        0 <= k < hd0.len() && (#[trigger] hd0[k]) as int == q2;
                                    assert(dropped@[k] as int == q2);
                                }
                                if light_mem(dropped@, q2) {
                                    let k = choose|k: int|
                                        0 <= k < dropped@.len() && (#[trigger] dropped@[k]) as int
                                            == q2;
                                    assert(k < hd0.len());
                                    assert(hd0[k] as int == q2);
                                }
                            }
                            assert(light_mem(working@, q2) <==> light_mem(hw0, q2)) by {
                                if light_mem(hw0, q2) {
                                    let k = choose|k: int|
                                        0 <= k < hw0.len() && (#[trigger] hw0[k]) as int == q2;
                                    if k < best_pos {
                                        assert(working@[k] as int == q2);
                                    } else {
                                        assert(k != best_pos);
                                        assert(working@[k - 1] as int == q2);
                                    }
                                }
                                if light_mem(working@, q2) {
                                    let k = choose|k: int|
                                        0 <= k < working@.len() && (#[trigger] working@[k]) as int
                                            == q2;
                                    if k < best_pos {
                                        assert(hw0[k] as int == q2);
                                    } else {
                                        assert(hw0[k + 1] as int == q2);
                                    }
                                }
                            }
                        }
                    }
                    assert(working_exact(pts, mesh.faces@, working@, used@, dropped@));
                    assert forall|id: int, q2: int|
                        face_alive_at(mesh.faces@, id) && 0 <= q2 < pts.len() && light_mem(
                            working@,
                            q2,
                        ) && #[trigger] sees(pts, mesh.faces@[id], q2) implies pending(
                        queue@,
                        qi as int,
                        id,
                    ) by {
                        assert(light_mem(hw0, q2)) by {
                            let k = choose|k: int|
                                0 <= k < working@.len() && (#[trigger] working@[k]) as int == q2;
                            if k < best_pos {
                                assert(hw0[k] as int == q2);
                            } else {
                                assert(hw0[k + 1] as int == q2);
                            }
                        }
                        assert(pending(hq0, hqi0, id));
                        let j = choose|j: int|
                            hqi0 <= j < hq0.len() && (#[trigger] hq0[j]) as int == id;
                        if j == hqi0 {
                            assert(id == fid as int);
                            assert(queue@[queue@.len() - 1] == fid);
                            assert(pending(queue@, qi as int, id));
                        } else {
                            assert(queue@[j] == hq0[j]);
                            assert(pending(queue@, qi as int, id));
                        }
                    }
                    assert(obligations_queued(pts, mesh.faces@, working@, queue@, qi as int));
                }
            },
        }
    }

    // the queue ran dry: no face sees any remaining candidate, so the
    // working set must be empty
    proof {
        if working@.len() > 0 {
            let q0 = working@[0] as int;
            assert(light_mem(working@, q0));
            assert(seen_by_surface(pts, mesh.faces@, q0));
            let id0 = choose|id: int|
                face_alive_at(mesh.faces@, id) && #[trigger] sees(pts, mesh.faces@[id], q0);
            assert(pending(queue@, qi as int, id0));
            assert(false);
        }
    }

    // hull corners must pass the side test too; one a face still sees is
    // reported as given up
    let mut ui: usize = 0;
    while ui < used.len()
        invariant
            mesh.inv(),
            mesh.points@ == pts,
            pts_in_bounds(pts),
            pts.len() == n,
            exists|fa: int| face_alive_at(mesh.faces@, fa),
            0 <= ui <= used@.len(),
            working@.len() == 0,
            forall|k: int| 0 <= k < used@.len() ==> ((#[trigger] used@[k]) as int) < n,
            forall|k: int| 0 <= k < dropped@.len() ==> ((#[trigger] dropped@[k]) as int) < n,
            working_exact(pts, mesh.faces@, working@, used@, dropped@),
            forall|k: int|
                0 <= k < ui ==> light_mem(dropped@, (#[trigger] used@[k]) as int)
                    || !seen_by_surface(pts, mesh.faces@, used@[k] as int),
        decreases used@.len() - ui,
    {
        let ghost dprev = dropped@;
        let u = used[ui];
        if surface_sees(&mesh, u) {
            dropped.push(u);
            proof {
                assert(dropped@[dropped@.len() - 1] == u);
                assert(light_mem(dropped@, used@[ui as int] as int));
            }
        }
        proof {
            assert forall|q2: int| 0 <= q2 < pts.len() implies (light_mem(working@, q2) <==> (
            !light_mem(used@, q2) && !light_mem(dropped@, q2) && seen_by_surface(
                pts,
                mesh.faces@,
                q2,
            ))) by {
                if light_mem(dprev, q2) {
                    let k = choose|k: int|
                        0 <= k < dprev.len() && (#[trigger] dprev[k]) as int == q2;
                    assert(dropped@[k] as int == q2);
                }
            }
            assert forall|k: int|
                0 <= k < ui + 1 implies light_mem(dropped@, (#[trigger] used@[k]) as int)
                    || !seen_by_surface(pts, mesh.faces@, used@[k] as int) by {
                if k < ui {
                    if light_mem(dprev, used@[k] as int) {
                        let k3 = choose|k3: int|
                            0 <= k3 < dprev.len() && (#[trigger] dprev[k3]) as int == used@[k]
                                as int;
                        assert(dropped@[k3] as int == used@[k] as int);
                    }
                }
            }
        }
        ui = ui + 1;
    }

    // containment: every face plane has every surviving point on or
    // inside it
    proof {
        assert forall|id: int, q: int|
            face_alive_at(mesh.faces@, id) && 0 <= q < pts.len() && !light_mem(
                dropped@,
                q,
            ) implies !(#[trigger] sees(pts, mesh.faces@[id], q)) by {
            if sees(pts, mesh.faces@[id], q) {
                assert(seen_by_surface(pts, mesh.faces@, q));
                if light_mem(used@, q) {
                    let k = choose|k: int|
                        0 <= k < used@.len() && (#[trigger] used@[k]) as int == q;
                    assert(false);
                } else {
                    assert(light_mem(working@, q));
                    assert(false);
                }
            }
        }
    }
    (mesh, dropped)
}

} // verus!

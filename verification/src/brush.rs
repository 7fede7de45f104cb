//! Brush vertex reconstruction.
//!
//! A brush is a convex solid given as an ordered list of bounding planes.
//! Its vertices are recovered by solving, for every ordered triple of
//! distinct valid planes whose normals span space, the three plane
//! equations by Cramer's rule, and keeping exactly the solutions that lie
//! on the solid side of every plane. The arithmetic is exact: solutions
//! are homogeneous rational points and the side test is an integer sign.
//!
//! Duplicate vertices are expected: a corner shared by many planes is
//! produced once per contributing triple, and no deduplication happens
//! here — consumers group or deduplicate as they need.

use vstd::prelude::*;

use crate::geom::{lemma_dot_bound, lemma_mul_bound, s_cross, s_dot, v3_in_bounds, HomV, HomVertex, Vec3};
use crate::plane::{
    hom_in_bounds,
    hom_sdist,
    normal_of,
    offset_of,
    plane_in_bounds,
    plane_valid,
    Plane,
    DET_BOUND,
    NUM_BOUND,
};

verus! {

/// The valid planes among the first `i` of `ps`, in order.
pub open spec fn vseq(ps: Seq<Plane>, i: int) -> Seq<Plane>
    decreases i,
{
    if i <= 0 || i > ps.len() {
        Seq::empty()
    } else {
        let prefix = vseq(ps, i - 1);
        if plane_valid(ps[i - 1]) {
            prefix.push(ps[i - 1])
        } else {
            prefix
        }
    }
}

/// The determinant of the three planes' normals.
pub open spec fn det3(a: Plane, b: Plane, c: Plane) -> int {
    s_dot(normal_of(a), s_cross(normal_of(b), normal_of(c)))
}

/// The homogeneous intersection point of three planes by Cramer's rule,
/// oriented so that its weight is positive.
pub open spec fn cand_of(a: Plane, b: Plane, c: Plane) -> HomV {
    let det = det3(a, b, c);
    let cbc = s_cross(normal_of(b), normal_of(c));
    let cca = s_cross(normal_of(c), normal_of(a));
    let cab = s_cross(normal_of(a), normal_of(b));
    let x = offset_of(a) * cbc.x + offset_of(b) * cca.x + offset_of(c) * cab.x;
    let y = offset_of(a) * cbc.y + offset_of(b) * cca.y + offset_of(c) * cab.y;
    let z = offset_of(a) * cbc.z + offset_of(b) * cca.z + offset_of(c) * cab.z;
    if det < 0 {
        HomV { x: -x, y: -y, z: -z, w: -det }
    } else {
        HomV { x, y, z, w: det }
    }
}

/// The candidate emitted for the ordered triple `(i, j, k)`: nothing when
/// indices repeat or the normals do not span space.
pub open spec fn emit(vs: Seq<Plane>, i: int, j: int, k: int) -> Seq<HomV> {
    if i != j && i != k && j != k && det3(vs[i], vs[j], vs[k]) != 0 {
        seq![cand_of(vs[i], vs[j], vs[k])]
    } else {
        Seq::empty()
    }
}

/// Candidates from triples `(i, j, 0..k)`.
pub open spec fn cands_k(vs: Seq<Plane>, i: int, j: int, k: int) -> Seq<HomV>
    decreases k,
{
    if k <= 0 {
        Seq::empty()
    } else {
        cands_k(vs, i, j, k - 1) + emit(vs, i, j, k - 1)
    }
}

/// Candidates from triples `(i, 0..j, _)`.
pub open spec fn cands_j(vs: Seq<Plane>, i: int, j: int) -> Seq<HomV>
    decreases j,
{
    if j <= 0 {
        Seq::empty()
    } else {
        cands_j(vs, i, j - 1) + cands_k(vs, i, j - 1, vs.len() as int)
    }
}

/// Candidates from triples `(0..i, _, _)`, in lexicographic order.
pub open spec fn cands_i(vs: Seq<Plane>, i: int) -> Seq<HomV>
    decreases i,
{
    if i <= 0 {
        Seq::empty()
    } else {
        cands_i(vs, i - 1) + cands_j(vs, i - 1, vs.len() as int)
    }
}

/// `v` lies on the solid side of every plane in `vs`.
pub open spec fn keep(vs: Seq<Plane>, v: HomV) -> bool {
    forall|m: int| 0 <= m < vs.len() ==> hom_sdist(#[trigger] vs[m], v) >= 0
}

/// The first `t` candidates, filtered by the half-space test.
pub open spec fn kept_upto(cs: Seq<HomV>, vs: Seq<Plane>, t: int) -> Seq<HomV>
    decreases t,
{
    if t <= 0 {
        Seq::empty()
    } else {
        let prefix = kept_upto(cs, vs, t - 1);
        if keep(vs, cs[t - 1]) {
            prefix.push(cs[t - 1])
        } else {
            prefix
        }
    }
}

/// The vertex list of a brush: empty when fewer than four valid planes
/// remain, otherwise every surviving triple intersection in enumeration
/// order.
pub open spec fn spec_brush_vertices(ps: Seq<Plane>) -> Seq<HomV> {
    let vs = vseq(ps, ps.len() as int);
    if vs.len() < 4 {
        Seq::empty()
    } else {
        let cs = cands_i(vs, vs.len() as int);
        kept_upto(cs, vs, cs.len() as int)
    }
}

/// There are never more valid planes than planes.
proof fn lemma_vseq_len(ps: Seq<Plane>, i: int)
    requires
        0 <= i <= ps.len(),
    ensures
        vseq(ps, i).len() <= i,
    decreases i,
{
    if i > 0 {
        lemma_vseq_len(ps, i - 1);
    }
}

/// Every valid plane of the list appears among the valid planes.
proof fn lemma_vseq_contains(ps: Seq<Plane>, i: int, m: int)
    requires
        0 <= m < i <= ps.len(),
        plane_valid(ps[m]),
    ensures
        exists|l: int| 0 <= l < vseq(ps, i).len() && (#[trigger] vseq(ps, i)[l]) == ps[m],
    decreases i,
{
    if m == i - 1 {
        let vs = vseq(ps, i);
        assert(vs[vs.len() - 1] == ps[m]);
    } else {
        lemma_vseq_contains(ps, i - 1, m);
        let l = choose|l: int|
            0 <= l < vseq(ps, i - 1).len() && (#[trigger] vseq(ps, i - 1)[l]) == ps[m];
        assert(vseq(ps, i)[l] == ps[m]);
    }
}

/// A degenerate plane constrains nothing: its signed distance vanishes
/// for every point.
proof fn lemma_invalid_sdist(p: Plane, v: HomV)
    requires
        !plane_valid(p),
    ensures
        hom_sdist(p, v) == 0,
{
    assert(normal_of(p).x == 0 && normal_of(p).y == 0 && normal_of(p).z == 0);
    assert(v.x * 0 == 0) by (nonlinear_arith);
    assert(v.y * 0 == 0) by (nonlinear_arith);
    assert(v.z * 0 == 0) by (nonlinear_arith);
    assert(offset_of(p) == s_dot(p.points[0]@, normal_of(p)));
    assert(p.points[0]@.x * 0 == 0) by (nonlinear_arith);
    assert(p.points[0]@.y * 0 == 0) by (nonlinear_arith);
    assert(p.points[0]@.z * 0 == 0) by (nonlinear_arith);
    assert(v.w * 0 == 0) by (nonlinear_arith);
}

/// Everything the filter lets through passes the half-space test.
proof fn lemma_kept_sound(cs: Seq<HomV>, vs: Seq<Plane>, t: int)
    requires
        0 <= t,
    ensures
        forall|l: int|
            0 <= l < kept_upto(cs, vs, t).len() ==> keep(vs, #[trigger] kept_upto(cs, vs, t)[l]),
    decreases t,
{
    if t > 0 {
        lemma_kept_sound(cs, vs, t - 1);
        let prev = kept_upto(cs, vs, t - 1);
        let cur = kept_upto(cs, vs, t);
        assert forall|l: int| 0 <= l < cur.len() implies keep(vs, cur[l]) by {
            if l < prev.len() {
                assert(cur[l] == prev[l]);
            } else {
                assert(cur[l] == cs[t - 1] && keep(vs, cs[t - 1]));
            }
        }
    }
}

/// Running the reconstruction twice over one plane list gives the same
/// vertex collection, order aside: the result is a function of the
/// planes alone.
pub proof fn lemma_reconstruction_deterministic(ps: Seq<Plane>, r1: Seq<HomV>, r2: Seq<HomV>)
    requires
        r1 == spec_brush_vertices(ps),
        r2 == spec_brush_vertices(ps),
    ensures
        r1.to_multiset() == r2.to_multiset(),
{
}

/// An ordered collection of planes bounding one convex solid.
#[derive(Clone, Debug)]
pub struct Brush {
    pub planes: Vec<Plane>,
}

/// Cross product of two plane normals.
fn cross_n(a: &Vec3, b: &Vec3) -> (r: Vec3)
    requires
        v3_in_bounds(a@, 134_217_728),
        v3_in_bounds(b@, 134_217_728),
    ensures
        r@ == s_cross(a@, b@),
        v3_in_bounds(r@, 36_028_797_018_963_968),
{
    proof {
        let bb = 134_217_728int;
        lemma_mul_bound(a.y as int, b.z as int, bb, bb);
        lemma_mul_bound(a.z as int, b.y as int, bb, bb);
        lemma_mul_bound(a.z as int, b.x as int, bb, bb);
        lemma_mul_bound(a.x as int, b.z as int, bb, bb);
        lemma_mul_bound(a.x as int, b.y as int, bb, bb);
        lemma_mul_bound(a.y as int, b.x as int, bb, bb);
    }
    Vec3 { x: a.y * b.z - a.z * b.y, y: a.z * b.x - a.x * b.z, z: a.x * b.y - a.y * b.x }
}

/// The homogeneous intersection point of three planes, when their normals
/// span space.
fn triple_vertex(a: &Plane, b: &Plane, c: &Plane) -> (r: Option<HomVertex>)
    requires
        plane_in_bounds(*a),
        plane_in_bounds(*b),
        plane_in_bounds(*c),
    ensures
        det3(*a, *b, *c) == 0 <==> r is None,
        r is Some ==> r->0@ == cand_of(*a, *b, *c) && hom_in_bounds(r->0@),
{
    let na = a.normal();
    let nb = b.normal();
    let nc = c.normal();
    let da = a.offset();
    let db = b.offset();
    let dc = c.offset();
    let cbc = cross_n(&nb, &nc);
    let cca = cross_n(&nc, &na);
    let cab = cross_n(&na, &nb);
    proof {
        lemma_dot_bound(na@, cbc@, 134_217_728, 36_028_797_018_963_968);
        lemma_mul_bound(na.x as int, cbc.x as int, 134_217_728, 36_028_797_018_963_968);
        lemma_mul_bound(na.y as int, cbc.y as int, 134_217_728, 36_028_797_018_963_968);
        lemma_mul_bound(na.z as int, cbc.z as int, 134_217_728, 36_028_797_018_963_968);
    }
    let det: i128 = (na.x as i128) * (cbc.x as i128) + (na.y as i128) * (cbc.y as i128) + (na.z
        as i128) * (cbc.z as i128);
    if det == 0 {
        return None;
    }
    proof {
        let dbd = 1_649_267_441_664int;
        let cbd = 36_028_797_018_963_968int;
        lemma_mul_bound(da as int, cbc.x as int, dbd, cbd);
        lemma_mul_bound(db as int, cca.x as int, dbd, cbd);
        lemma_mul_bound(dc as int, cab.x as int, dbd, cbd);
        lemma_mul_bound(da as int, cbc.y as int, dbd, cbd);
        lemma_mul_bound(db as int, cca.y as int, dbd, cbd);
        lemma_mul_bound(dc as int, cab.y as int, dbd, cbd);
        lemma_mul_bound(da as int, cbc.z as int, dbd, cbd);
        lemma_mul_bound(db as int, cca.z as int, dbd, cbd);
        lemma_mul_bound(dc as int, cab.z as int, dbd, cbd);
    }
    let x: i128 = (da as i128) * (cbc.x as i128) + (db as i128) * (cca.x as i128) + (dc as i128) * (
    cab.x as i128);
    let y: i128 = (da as i128) * (cbc.y as i128) + (db as i128) * (cca.y as i128) + (dc as i128) * (
    cab.y as i128);
    let z: i128 = (da as i128) * (cbc.z as i128) + (db as i128) * (cca.z as i128) + (dc as i128) * (
    cab.z as i128);
    if det < 0 {
        Some(HomVertex { x: -x, y: -y, z: -z, w: -det })
    } else {
        Some(HomVertex { x, y, z, w: det })
    }
}

impl Brush {
    pub fn new(planes: Vec<Plane>) -> (r: Brush)
        ensures
            r.planes == planes,
    {
        Brush { planes }
    }

    /// Reconstruct the vertices of the solid bounded by this brush's
    /// planes.
    ///
    /// The result is exactly the enumeration the specification functions
    /// describe: in particular it is empty whenever fewer than four
    /// non-degenerate planes are present, every returned vertex lies on
    /// the solid side of every plane of the brush, and the output is a
    /// function of the plane list alone. Duplicates are not removed.
    ///
    /// Plane points must lie within `COORD_BOUND` so that the exact
    /// 128-bit arithmetic cannot overflow; the parser only ever produces
    /// such planes.
    pub fn vertices(&self) -> (r: Vec<HomVertex>)
        requires
            forall|m: int|
                0 <= m < self.planes@.len() ==> plane_in_bounds(#[trigger] self.planes@[m]),
        ensures
            r@.len() == spec_brush_vertices(self.planes@).len(),
            forall|l: int| 0 <= l < r@.len() ==> (#[trigger] r@[l])@ == spec_brush_vertices(
                self.planes@,
            )[l],
            forall|l: int| 0 <= l < r@.len() ==> hom_in_bounds((#[trigger] r@[l])@),
            self.planes@.len() < 4 ==> r@.len() == 0,
            forall|l: int, m: int|
                0 <= l < r@.len() && 0 <= m < self.planes@.len() ==> hom_sdist(
                    #[trigger] self.planes@[m],
                    (#[trigger] r@[l])@,
                ) >= 0,
    {
        let ghost ps = self.planes@;
        let np: usize = self.planes.len();

        // collect the valid planes (their indices, in order)
        let mut vidx: Vec<usize> = Vec::new();
        let mut i: usize = 0;
        while i < np
            invariant
                0 <= i <= np,
                np == ps.len(),
                ps == self.planes@,
                forall|m: int| 0 <= m < ps.len() ==> plane_in_bounds(#[trigger] ps[m]),
                vidx@.len() == vseq(ps, i as int).len(),
                forall|l: int| 0 <= l < vidx@.len() ==> (#[trigger] vidx@[l]) < ps.len(),
                forall|l: int| 0 <= l < vidx@.len() ==> ps[(#[trigger] vidx@[l]) as int] == vseq(
                    ps,
                    i as int,
                )[l],
            decreases np - i,
        {
            if self.planes[i].is_valid() {
                vidx.push(i);
            }
            i = i + 1;
        }
        let ghost vs = vseq(ps, ps.len() as int);
        let m: usize = vidx.len();

        if m < 4 {
            proof {
                lemma_vseq_len(ps, ps.len() as int);
            }
            return Vec::new();
        }
        proof {
            lemma_vseq_len(ps, ps.len() as int);
        }

        // enumerate every ordered triple of distinct valid planes
        let mut cands: Vec<HomVertex> = Vec::new();
        let mut ti: usize = 0;
        while ti < m
            invariant
                0 <= ti <= m,
                m == vs.len(),
                np == ps.len(),
                ps == self.planes@,
                vs == vseq(ps, ps.len() as int),
                forall|mm: int| 0 <= mm < ps.len() ==> plane_in_bounds(#[trigger] ps[mm]),
                vidx@.len() == m,
                forall|l: int| 0 <= l < m ==> (#[trigger] vidx@[l]) < ps.len(),
                forall|l: int| 0 <= l < m ==> ps[(#[trigger] vidx@[l]) as int] == vs[l],
                cands@.len() == cands_i(vs, ti as int).len(),
                forall|l: int| 0 <= l < cands@.len() ==> (#[trigger] cands@[l])@ == cands_i(
                    vs,
                    ti as int,
                )[l],
                forall|l: int| 0 <= l < cands@.len() ==> hom_in_bounds((#[trigger] cands@[l])@),
            decreases m - ti,
        {
            let mut tj: usize = 0;
            while tj < m
                invariant
                    0 <= ti < m,
                    0 <= tj <= m,
                    m == vs.len(),
                    np == ps.len(),
                    ps == self.planes@,
                    vs == vseq(ps, ps.len() as int),
                    forall|mm: int| 0 <= mm < ps.len() ==> plane_in_bounds(#[trigger] ps[mm]),
                    vidx@.len() == m,
                    forall|l: int| 0 <= l < m ==> (#[trigger] vidx@[l]) < ps.len(),
                    forall|l: int| 0 <= l < m ==> ps[(#[trigger] vidx@[l]) as int] == vs[l],
                    cands@.len() == cands_i(vs, ti as int).len() + cands_j(vs, ti as int, tj as int).len(),
                    forall|l: int| 0 <= l < cands@.len() ==> (#[trigger] cands@[l])@ == (cands_i(
                        vs,
                        ti as int,
                    ) + cands_j(vs, ti as int, tj as int))[l],
                    forall|l: int| 0 <= l < cands@.len() ==> hom_in_bounds((#[trigger] cands@[l])@),
                decreases m - tj,
            {
                let mut tk: usize = 0;
                while tk < m
                    invariant
                        0 <= ti < m,
                        0 <= tj < m,
                        0 <= tk <= m,
                        m == vs.len(),
                        np == ps.len(),
                        ps == self.planes@,
                        vs == vseq(ps, ps.len() as int),
                        forall|mm: int| 0 <= mm < ps.len() ==> plane_in_bounds(#[trigger] ps[mm]),
                        vidx@.len() == m,
                        forall|l: int| 0 <= l < m ==> (#[trigger] vidx@[l]) < ps.len(),
                        forall|l: int| 0 <= l < m ==> ps[(#[trigger] vidx@[l]) as int] == vs[l],
                        cands@.len() == cands_i(vs, ti as int).len() + cands_j(
                            vs,
                            ti as int,
                            tj as int,
                        ).len() + cands_k(vs, ti as int, tj as int, tk as int).len(),
                        forall|l: int| 0 <= l < cands@.len() ==> (#[trigger] cands@[l])@ == (
                        cands_i(vs, ti as int) + cands_j(vs, ti as int, tj as int) + cands_k(
                            vs,
                            ti as int,
                            tj as int,
                            tk as int,
                        ))[l],
                        forall|l: int| 0 <= l < cands@.len() ==> hom_in_bounds(
                            (#[trigger] cands@[l])@,
                        ),
                    decreases m - tk,
                {
                    if ti != tj && ti != tk && tj != tk {
                        let pa = &self.planes[vidx[ti]];
                        let pb = &self.planes[vidx[tj]];
                        let pc = &self.planes[vidx[tk]];
                        match triple_vertex(pa, pb, pc) {
                            Some(v) => {
                                cands.push(v);
                            },
                            None => {},
                        }
                    }
                    tk = tk + 1;
                }
                tj = tj + 1;
            }
            ti = ti + 1;
        }
        let ghost cs = cands_i(vs, vs.len() as int);

        // keep exactly the candidates inside every half-space
        let mut out: Vec<HomVertex> = Vec::new();
        let mut t: usize = 0;
        let nc: usize = cands.len();
        while t < nc
            invariant
                0 <= t <= nc,
                nc == cs.len(),
                np == ps.len(),
                ps == self.planes@,
                vs == vseq(ps, ps.len() as int),
                m == vs.len(),
                forall|mm: int| 0 <= mm < ps.len() ==> plane_in_bounds(#[trigger] ps[mm]),
                vidx@.len() == m,
                forall|l: int| 0 <= l < m ==> (#[trigger] vidx@[l]) < ps.len(),
                forall|l: int| 0 <= l < m ==> ps[(#[trigger] vidx@[l]) as int] == vs[l],
                cands@.len() == nc,
                forall|l: int| 0 <= l < nc ==> (#[trigger] cands@[l])@ == cs[l],
                forall|l: int| 0 <= l < nc ==> hom_in_bounds((#[trigger] cands@[l])@),
                out@.len() == kept_upto(cs, vs, t as int).len(),
                forall|l: int| 0 <= l < out@.len() ==> (#[trigger] out@[l])@ == kept_upto(
                    cs,
                    vs,
                    t as int,
                )[l],
                forall|l: int| 0 <= l < out@.len() ==> hom_in_bounds((#[trigger] out@[l])@),
            decreases nc - t,
        {
            let v = cands[t];
            let mut ok: bool = true;
            let mut l: usize = 0;
            while l < m
                invariant
                    0 <= l <= m,
                    m == vs.len(),
                    np == ps.len(),
                    ps == self.planes@,
                    forall|mm: int| 0 <= mm < ps.len() ==> plane_in_bounds(#[trigger] ps[mm]),
                    vidx@.len() == m,
                    forall|l2: int| 0 <= l2 < m ==> (#[trigger] vidx@[l2]) < ps.len(),
                    forall|l2: int| 0 <= l2 < m ==> ps[(#[trigger] vidx@[l2]) as int] == vs[l2],
                    hom_in_bounds(v@),
                    ok == (forall|l2: int| 0 <= l2 < l ==> hom_sdist(#[trigger] vs[l2], v@) >= 0),
                decreases m - l,
            {
                let sd = self.planes[vidx[l]].signed_distance(&v);
                if sd < 0 {
                    ok = false;
                }
                l = l + 1;
            }
            if ok {
                out.push(v);
            }
            t = t + 1;
        }

        proof {
            lemma_kept_sound(cs, vs, cs.len() as int);
            assert forall|l: int, mm: int|
                0 <= l < out@.len() && 0 <= mm < ps.len() implies hom_sdist(
                #[trigger] ps[mm],
                (#[trigger] out@[l])@,
            ) >= 0 by {
                if plane_valid(ps[mm]) {
                    lemma_vseq_contains(ps, ps.len() as int, mm);
                    let lv = choose|lv: int| 0 <= lv < vs.len() && (#[trigger] vs[lv]) == ps[mm];
                    assert(keep(vs, out@[l]@));
                    assert(hom_sdist(vs[lv], out@[l]@) >= 0);
                } else {
                    lemma_invalid_sdist(ps[mm], out@[l]@);
                }
            }
        }
        out
    }
}

} // verus!

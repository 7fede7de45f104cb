//! An arena-based triangle mesh with a verified closedness invariant.
//!
//! Faces live in an arena and are never moved: removing a face only marks
//! it dead, so a face id stays valid as a lookup key even while the mesh
//! is rewritten around it. The central invariant is that the alive faces
//! always form a closed, consistently wound surface: every directed edge
//! occurs in at most one alive face, and its reversal occurs in some
//! alive face. In particular every undirected edge is shared by exactly
//! two faces.

use vstd::prelude::*;

use crate::error::AttachError;
use crate::geom::Vec3;

verus! {

/// One triangular face: three point indices in winding order, and a flag
/// that is cleared when the face is removed from the surface.
#[derive(Clone, Copy, Debug, PartialEq, Eq, Structural)]
pub struct Face {
    pub a: usize,
    pub b: usize,
    pub c: usize,
    pub alive: bool,
}

/// Face `i` of `faces` exists and has not been removed.
pub open spec fn face_alive_at(faces: Seq<Face>, i: int) -> bool {
    0 <= i < faces.len() && faces[i].alive
}

/// `f` contains the directed edge `u -> v`.
pub open spec fn has_edge(f: Face, u: usize, v: usize) -> bool {
    (f.a == u && f.b == v) || (f.b == u && f.c == v) || (f.c == u && f.a == v)
}

/// Alive face `i` of `faces` contains the directed edge `u -> v`.
///
/// This wrapper is the quantifier trigger for the closedness conditions,
/// so that their instantiation stays under the proofs' control.
pub open spec fn face_edge(faces: Seq<Face>, i: int, u: usize, v: usize) -> bool {
    face_alive_at(faces, i) && has_edge(faces[i], u, v)
}

/// `p` is one of the three corners of `f`.
pub open spec fn has_vertex(f: Face, p: usize) -> bool {
    f.a == p || f.b == p || f.c == p
}

/// The corners of `f` are distinct point indices below `n`.
pub open spec fn face_wf(f: Face, n: nat) -> bool {
    f.a < n && f.b < n && f.c < n && f.a != f.b && f.b != f.c && f.c != f.a
}

/// Every alive face is well formed against a point arena of size `n`.
pub open spec fn faces_wf(faces: Seq<Face>, n: nat) -> bool {
    forall|i: int| face_alive_at(faces, i) ==> face_wf(#[trigger] faces[i], n)
}

/// No directed edge occurs in two distinct alive faces.
pub open spec fn edge_unique(faces: Seq<Face>) -> bool {
    forall|i: int, j: int, u: usize, v: usize|
        #[trigger] face_edge(faces, i, u, v) && #[trigger] face_edge(faces, j, u, v) ==> i == j
}

/// Every directed edge of an alive face has its reversal in an alive face.
pub open spec fn edge_matched(faces: Seq<Face>) -> bool {
    forall|i: int, u: usize, v: usize| #[trigger] face_edge(faces, i, u, v) ==> exists|j: int|
        face_alive_at(faces, j) && has_edge(#[trigger] faces[j], v, u)
}

/// The alive faces form a closed oriented surface.
pub open spec fn is_closed(faces: Seq<Face>) -> bool {
    edge_unique(faces) && edge_matched(faces)
}

/// Some face listed in `light` contains the directed edge `u -> v`.
pub open spec fn light_owns_edge(faces: Seq<Face>, light: Seq<usize>, u: usize, v: usize) -> bool {
    exists|k: int| 0 <= k < light.len() && has_edge(#[trigger] faces[light[k] as int], u, v)
}

/// `i` is one of the ids listed in `light`.
pub open spec fn light_mem(light: Seq<usize>, i: int) -> bool {
    exists|k: int| 0 <= k < light.len() && light[k] as int == i
}

/// Every id in `light` names an alive face of `faces`.
pub open spec fn light_alive(faces: Seq<Face>, light: Seq<usize>) -> bool {
    forall|k: int| 0 <= k < light.len() ==> face_alive_at(faces, #[trigger] light[k] as int)
}

/// `u -> v` is an edge of a face in `light` whose reversal no face in
/// `light` contains.
pub open spec fn horizon_edge(faces: Seq<Face>, light: Seq<usize>, u: usize, v: usize) -> bool {
    light_owns_edge(faces, light, u, v) && !light_owns_edge(faces, light, v, u)
}

/// Every entry of `h` is a horizon edge of the light set.
pub open spec fn h_sound(faces: Seq<Face>, light: Seq<usize>, h: Seq<(usize, usize)>) -> bool {
    forall|m: int| 0 <= m < h.len() ==> horizon_edge(faces, light, (#[trigger] h[m]).0, h[m].1)
}

/// Horizon sources are pairwise distinct and so are horizon targets.
pub open spec fn h_distinct(h: Seq<(usize, usize)>) -> bool {
    forall|m1: int, m2: int|
        0 <= m1 < h.len() && 0 <= m2 < h.len() && m1 != m2 ==> (#[trigger] h[m1]).0 != (
        #[trigger] h[m2]).0 && h[m1].1 != h[m2].1
}

/// `h` has an edge starting at `v`.
#[verifier::opaque]
pub open spec fn h_has_source(h: Seq<(usize, usize)>, v: usize) -> bool {
    exists|m: int| 0 <= m < h.len() && (#[trigger] h[m]).0 == v
}

/// `h` has an edge ending at `u`.
#[verifier::opaque]
pub open spec fn h_has_target(h: Seq<(usize, usize)>, u: usize) -> bool {
    exists|m: int| 0 <= m < h.len() && (#[trigger] h[m]).1 == u
}

/// Every horizon target is also a source and every source a target, so
/// `h` decomposes into cycles.
pub open spec fn h_cyclic(h: Seq<(usize, usize)>) -> bool {
    forall|m: int| 0 <= m < h.len() ==> h_has_source(h, (#[trigger] h[m]).1) && h_has_target(
        h,
        h[m].0,
    )
}

/// Every surviving face whose edge is mirrored inside the light set finds
/// that mirror on the horizon.
pub open spec fn h_covers(faces: Seq<Face>, light: Seq<usize>, h: Seq<(usize, usize)>) -> bool {
    forall|i: int, u: usize, v: usize|
        #[trigger] face_edge(faces, i, u, v) && !light_mem(light, i) && light_owns_edge(
            faces,
            light,
            v,
            u,
        ) ==> h.contains((v, u))
}

/// The ids in `light` are pairwise distinct.
pub open spec fn light_distinct(light: Seq<usize>) -> bool {
    forall|k1: int, k2: int|
        0 <= k1 < light.len() && 0 <= k2 < light.len() && k1 != k2 ==> (#[trigger] light[k1]) != (
        #[trigger] light[k2])
}

/// The horizon contribution of one directed edge of a light face: kept
/// exactly when no light face owns its reversal.
pub open spec fn maybe_h_edge(faces: Seq<Face>, light: Seq<usize>, u: usize, v: usize) -> Seq<
    (usize, usize),
> {
    if !light_owns_edge(faces, light, v, u) {
        seq![(u, v)]
    } else {
        Seq::empty()
    }
}

/// The horizon edges contributed by the light face `id`, in winding order.
pub open spec fn face_h_edges(faces: Seq<Face>, light: Seq<usize>, id: int) -> Seq<(usize, usize)> {
    let f = faces[id];
    maybe_h_edge(faces, light, f.a, f.b) + maybe_h_edge(faces, light, f.b, f.c) + maybe_h_edge(
        faces,
        light,
        f.c,
        f.a,
    )
}

/// The horizon collected from the first `k` faces of the light set.
pub open spec fn spec_horizon(faces: Seq<Face>, light: Seq<usize>, k: int) -> Seq<(usize, usize)>
    decreases k,
{
    if k <= 0 {
        Seq::empty()
    } else {
        spec_horizon(faces, light, k - 1) + face_h_edges(faces, light, light[k - 1] as int)
    }
}

/// Every condition under which attaching `p` over `light` succeeds: the
/// light set is nonempty, alive and duplicate-free, `p` is a fresh point,
/// and the horizon is nonempty, decomposes into simple disjoint cycles,
/// and covers the surviving faces' mirrored edges.
pub open spec fn attach_valid(faces: Seq<Face>, np: nat, p: usize, light: Seq<usize>) -> bool {
    let h = spec_horizon(faces, light, light.len() as int);
    light.len() > 0 && light_alive(faces, light) && light_distinct(light) && point_fresh(
        faces,
        p,
        np,
    ) && h.len() > 0 && h_distinct(h) && h_cyclic(h) && h_covers(faces, light, h)
}

/// The arena after the surgery: the light faces killed in place, and one
/// alive fan face appended per horizon edge.
pub open spec fn attach_faces(
    faces: Seq<Face>,
    light: Seq<usize>,
    h: Seq<(usize, usize)>,
    p: usize,
) -> Seq<Face> {
    Seq::new(
        faces.len() + h.len(),
        |i: int|
            if i < faces.len() {
                if light_mem(light, i) {
                    kill(faces[i])
                } else {
                    faces[i]
                }
            } else {
                Face { a: h[i - faces.len()].0, b: h[i - faces.len()].1, c: p, alive: true }
            },
    )
}

/// `f` with its alive flag cleared.
pub open spec fn kill(f: Face) -> Face {
    Face { a: f.a, b: f.b, c: f.c, alive: false }
}

/// `f1` is `f0` with exactly the faces listed in `light` marked dead.
pub open spec fn arena_killed(f0: Seq<Face>, f1: Seq<Face>, light: Seq<usize>) -> bool {
    f1.len() == f0.len() && forall|i: int|
        0 <= i < f0.len() ==> (#[trigger] f1[i]) == if light_mem(light, i) {
            kill(f0[i])
        } else {
            f0[i]
        }
}

/// `f2` is `f1` extended by one alive fan face per horizon edge, joining
/// `p` to that edge.
pub open spec fn arena_extended(
    f1: Seq<Face>,
    f2: Seq<Face>,
    h: Seq<(usize, usize)>,
    p: usize,
) -> bool {
    f2.len() == f1.len() + h.len() && (forall|i: int|
        0 <= i < f1.len() ==> (#[trigger] f2[i]) == f1[i]) && (forall|m: int|
        0 <= m < h.len() ==> (#[trigger] f2[f1.len() + m]) == (Face {
            a: h[m].0,
            b: h[m].1,
            c: p,
            alive: true,
        }))
}

/// `p` is a fresh point index for the surface: in range, on no alive face.
pub open spec fn point_fresh(faces: Seq<Face>, p: usize, np: nat) -> bool {
    p < np && forall|i: int| face_alive_at(faces, i) ==> !has_vertex(#[trigger] faces[i], p)
}

/// Membership scan over a list of face ids.
fn ids_contain(light: &Vec<usize>, id: usize) -> (r: bool)
    ensures
        r == light_mem(light@, id as int),
{
    let mut k: usize = 0;
    while k < light.len()
        invariant
            0 <= k <= light@.len(),
            forall|k2: int| 0 <= k2 < k ==> light@[k2] != id,
        decreases light@.len() - k,
    {
        if light[k] == id {
            return true;
        }
        k = k + 1;
    }
    false
}

/// Membership scan over a list of directed edges.
fn edges_contain(h: &Vec<(usize, usize)>, u: usize, v: usize) -> (r: bool)
    ensures
        r == h@.contains((u, v)),
{
    let mut k: usize = 0;
    while k < h.len()
        invariant
            0 <= k <= h@.len(),
            forall|k2: int| 0 <= k2 < k ==> h@[k2] != (u, v),
        decreases h@.len() - k,
    {
        if h[k].0 == u && h[k].1 == v {
            assert(h@[k as int] == (u, v));
            return true;
        }
        k = k + 1;
    }
    false
}

/// Membership scan for a horizon edge starting at `v`.
fn horizon_has_source(h: &Vec<(usize, usize)>, v: usize) -> (r: bool)
    ensures
        r == h_has_source(h@, v),
{
    let mut m: usize = 0;
    while m < h.len()
        invariant
            0 <= m <= h@.len(),
            forall|m2: int| 0 <= m2 < m ==> (#[trigger] h@[m2]).0 != v,
        decreases h@.len() - m,
    {
        if h[m].0 == v {
            assert(h_has_source(h@, v)) by {
                reveal(h_has_source);
                assert(0 <= m < h@.len() && (h@[m as int]).0 == v);
            }
            return true;
        }
        m = m + 1;
    }
    assert(!h_has_source(h@, v)) by {
        reveal(h_has_source);
    }
    false
}

/// Membership scan for a horizon edge ending at `u`.
fn horizon_has_target(h: &Vec<(usize, usize)>, u: usize) -> (r: bool)
    ensures
        r == h_has_target(h@, u),
{
    let mut m: usize = 0;
    while m < h.len()
        invariant
            0 <= m <= h@.len(),
            forall|m2: int| 0 <= m2 < m ==> (#[trigger] h@[m2]).1 != u,
        decreases h@.len() - m,
    {
        if h[m].1 == u {
            assert(h_has_target(h@, u)) by {
                reveal(h_has_target);
                assert(0 <= m < h@.len() && (h@[m as int]).1 == u);
            }
            return true;
        }
        m = m + 1;
    }
    assert(!h_has_target(h@, u)) by {
        reveal(h_has_target);
    }
    false
}

/// A triangle mesh over a fixed arena of points.
#[derive(Clone, Debug)]
pub struct Mesh {
    pub points: Vec<Vec3>,
    pub faces: Vec<Face>,
}

impl Mesh {
    /// Well-formed and closed: the invariant every operation preserves.
    pub open spec fn inv(self) -> bool {
        faces_wf(self.faces@, self.points@.len()) && is_closed(self.faces@)
    }

    /// The sentinel result for degenerate hull inputs: no points, no faces.
    pub open spec fn spec_is_sentinel(self) -> bool {
        self.points@.len() == 0 && self.faces@.len() == 0
    }

    pub fn empty() -> (r: Mesh)
        ensures
            r.spec_is_sentinel(),
            r.inv(),
    {
        Mesh { points: Vec::new(), faces: Vec::new() }
    }

    /// Whether this is the sentinel empty mesh.
    pub fn is_empty(&self) -> (r: bool)
        ensures
            r == self.spec_is_sentinel(),
    {
        self.points.len() == 0 && self.faces.len() == 0
    }

    /// Number of alive faces.
    pub fn alive_face_count(&self) -> (r: usize)
        ensures
            r as int == count_alive(self.faces@, self.faces@.len() as int),
    {
        let mut n: usize = 0;
        let mut i: usize = 0;
        while i < self.faces.len()
            invariant
                0 <= i <= self.faces@.len(),
                n as int == count_alive(self.faces@, i as int),
                n <= i,
            decreases self.faces@.len() - i,
        {
            if self.faces[i].alive {
                n = n + 1;
            }
            i = i + 1;
        }
        n
    }

    /// `id` refers to a face that is currently part of the surface.
    pub fn face_alive(&self, id: usize) -> (r: bool)
        ensures
            r == face_alive_at(self.faces@, id as int),
    {
        id < self.faces.len() && self.faces[id].alive
    }

    /// The corner indices of the alive faces, in arena order.
    pub fn alive_faces(&self) -> (r: Vec<(usize, usize, usize)>)
        ensures
            r@ == alive_tris(self.faces@, self.faces@.len() as int),
    {
        let mut out: Vec<(usize, usize, usize)> = Vec::new();
        let mut i: usize = 0;
        while i < self.faces.len()
            invariant
                0 <= i <= self.faces@.len(),
                out@ == alive_tris(self.faces@, i as int),
            decreases self.faces@.len() - i,
        {
            let f = self.faces[i];
            if f.alive {
                out.push((f.a, f.b, f.c));
            }
            i = i + 1;
        }
        out
    }

    /// The closed 4-face mesh over four distinct point indices.
    ///
    /// Faces are wound so that, when `i3` lies on the negative side of the
    /// plane through `i0`, `i1`, `i2`, all four normals point away from the
    /// solid.
    pub fn from_tetrahedron(points: Vec<Vec3>, i0: usize, i1: usize, i2: usize, i3: usize) -> (r:
        Mesh)
        requires
            i0 < points@.len(),
            i1 < points@.len(),
            i2 < points@.len(),
            i3 < points@.len(),
            i0 != i1 && i0 != i2 && i0 != i3 && i1 != i2 && i1 != i3 && i2 != i3,
        ensures
            r.inv(),
            r.points@ == points@,
            r.faces@.len() == 4,
            forall|i: int| 0 <= i < 4 ==> face_alive_at(r.faces@, i),
            r.faces@[0] == (Face { a: i0, b: i1, c: i2, alive: true }),
            r.faces@[1] == (Face { a: i0, b: i2, c: i3, alive: true }),
            r.faces@[2] == (Face { a: i0, b: i3, c: i1, alive: true }),
            r.faces@[3] == (Face { a: i1, b: i3, c: i2, alive: true }),
    {
        let mut faces: Vec<Face> = Vec::new();
        faces.push(Face { a: i0, b: i1, c: i2, alive: true });
        faces.push(Face { a: i0, b: i2, c: i3, alive: true });
        faces.push(Face { a: i0, b: i3, c: i1, alive: true });
        faces.push(Face { a: i1, b: i3, c: i2, alive: true });
        proof {
            lemma_tetrahedron_closed(faces@, i0, i1, i2, i3);
        }
        Mesh { points, faces }
    }

    /// Whether any face listed in `light` contains the edge `u -> v`.
    fn light_has_edge(&self, light: &Vec<usize>, u: usize, v: usize) -> (r: bool)
        requires
            forall|k: int| 0 <= k < light@.len() ==> (#[trigger] light@[k]) < self.faces@.len(),
        ensures
            r == light_owns_edge(self.faces@, light@, u, v),
    {
        let mut k: usize = 0;
        while k < light.len()
            invariant
                0 <= k <= light@.len(),
                forall|k2: int| 0 <= k2 < light@.len() ==> (#[trigger] light@[k2])
                    < self.faces@.len(),
                forall|k2: int| 0 <= k2 < k ==> !has_edge(
                    #[trigger] self.faces@[light@[k2] as int],
                    u,
                    v,
                ),
            decreases light@.len() - k,
        {
            let f = self.faces[light[k]];
            if (f.a == u && f.b == v) || (f.b == u && f.c == v) || (f.c == u && f.a == v) {
                return true;
            }
            k = k + 1;
        }
        false
    }

    /// Replace the faces in `light` by a fan of new triangles that join
    /// point `p` to the boundary of the removed region.
    ///
    /// All validity checks run before any mutation: on error the mesh is
    /// untouched. On success the surface is again closed and well formed,
    /// and the returned ids are the alive replacement faces.
    #[verifier::spinoff_prover]
    #[verifier::rlimit(60)]
    pub fn attach_point(&mut self, p: usize, light: &Vec<usize>) -> (r: Result<
        Vec<usize>,
        AttachError,
    >)
        requires
            old(self).inv(),
        ensures
            final(self).points@ == old(self).points@,
            old(self).faces@.len() <= final(self).faces@.len(),
            r is Err <==> !attach_valid(old(self).faces@, old(self).points@.len(), p, light@),
            match r {
                Ok(ids) => {
                    let h = spec_horizon(old(self).faces@, light@, light@.len() as int);
                    final(self).inv() && final(self).faces@ == attach_faces(
                        old(self).faces@,
                        light@,
                        h,
                        p,
                    ) && ids@.len() == h.len() && ids@.len() >= 1 && (forall|k: int|
                        0 <= k < ids@.len() ==> (#[trigger] ids@[k]) as int == old(
                            self,
                        ).faces@.len() + k) && (forall|k: int|
                        0 <= k < ids@.len() ==> face_alive_at(
                            final(self).faces@,
                            #[trigger] ids@[k] as int,
                        ))
                },
                Err(_) => *final(self) == *old(self),
            },
    {
        let ghost f0: Seq<Face> = self.faces@;
        let ghost pts0: Seq<Vec3> = self.points@;
        let ghost np: nat = self.points@.len();
        let n0: usize = self.faces.len();

        // The replaced set must be nonempty, alive, and free of repeats.
        if light.len() == 0 {
            proof {
                assert(!attach_valid(f0, np, p, light@));
            }
            return Err(AttachError::InvalidLightSet);
        }
        let mut k: usize = 0;
        while k < light.len()
            invariant
                0 <= k <= light@.len(),
                self == old(self),
                f0 == self.faces@,
                forall|k2: int| 0 <= k2 < k ==> face_alive_at(f0, #[trigger] light@[k2] as int),
            decreases light@.len() - k,
        {
            if !self.face_alive(light[k]) {
                proof {
                    assert(!face_alive_at(f0, light@[k as int] as int));
                    assert(!light_alive(f0, light@));
                    assert(!attach_valid(f0, np, p, light@));
                }
                return Err(AttachError::InvalidLightSet);
            }
            k = k + 1;
        }
        assert(light_alive(f0, light@));
        k = 0;
        while k < light.len()
            invariant
                0 <= k <= light@.len(),
                self == old(self),
                forall|k1: int, k2: int|
                    0 <= k1 < k && 0 <= k2 < light@.len() && k1 != k2 ==> (#[trigger] light@[k1])
                        != (#[trigger] light@[k2]),
            decreases light@.len() - k,
        {
            let mut k2: usize = k + 1;
            while k2 < light.len()
                invariant
                    0 <= k < k2 <= light@.len(),
                    self == old(self),
                    forall|j: int| k < j < k2 ==> light@[j] != light@[k as int],
                decreases light@.len() - k2,
            {
                if light[k2] == light[k] {
                    proof {
                        assert(light@[k2 as int] == light@[k as int]);
                        assert(!light_distinct(light@));
                        assert(!attach_valid(f0, np, p, light@));
                    }
                    return Err(AttachError::InvalidLightSet);
                }
                k2 = k2 + 1;
            }
            k = k + 1;
        }
        assert(light_distinct(light@));

        // `p` must be a fresh point: in range and not on the surface.
        if p >= self.points.len() {
            proof {
                assert(!point_fresh(f0, p, np));
                assert(!attach_valid(f0, np, p, light@));
            }
            return Err(AttachError::InvalidPoint);
        }
        let mut i: usize = 0;
        while i < self.faces.len()
            invariant
                0 <= i <= self.faces@.len(),
                self == old(self),
                f0 == self.faces@,
                p < self.points@.len(),
                forall|i2: int| 0 <= i2 < i && face_alive_at(f0, i2) ==> !has_vertex(
                    #[trigger] f0[i2],
                    p,
                ),
            decreases self.faces@.len() - i,
        {
            let f = self.faces[i];
            if f.alive && (f.a == p || f.b == p || f.c == p) {
                proof {
                    assert(face_alive_at(f0, i as int) && has_vertex(f0[i as int], p));
                    assert(!point_fresh(f0, p, np));
                    assert(!attach_valid(f0, np, p, light@));
                }
                return Err(AttachError::InvalidPoint);
            }
            i = i + 1;
        }
        assert(point_fresh(f0, p, np));

        // Collect the horizon: directed edges of replaced faces whose
        // reversal survives outside the replaced set.
        let mut h: Vec<(usize, usize)> = Vec::new();
        k = 0;
        while k < light.len()
            invariant
                0 <= k <= light@.len(),
                self == old(self),
                f0 == self.faces@,
                light_alive(f0, light@),
                h_sound(f0, light@, h@),
                h@ == spec_horizon(f0, light@, k as int),
            decreases light@.len() - k,
        {
            let ghost hprev: Seq<(usize, usize)> = h@;
            let f = self.faces[light[k]];
            proof {
                assert(face_alive_at(f0, light@[k as int] as int));
            }
            if !self.light_has_edge(light, f.b, f.a) {
                proof {
                    assert(has_edge(f0[light@[k as int] as int], f.a, f.b));
                }
                h.push((f.a, f.b));
            }
            if !self.light_has_edge(light, f.c, f.b) {
                proof {
                    assert(has_edge(f0[light@[k as int] as int], f.b, f.c));
                }
                h.push((f.b, f.c));
            }
            if !self.light_has_edge(light, f.a, f.c) {
                proof {
                    assert(has_edge(f0[light@[k as int] as int], f.c, f.a));
                }
                h.push((f.c, f.a));
            }
            proof {
                assert(f == f0[light@[k as int] as int]);
                assert(h@ =~= hprev + face_h_edges(f0, light@, light@[k as int] as int));
                assert(h@ =~= spec_horizon(f0, light@, k as int + 1));
            }
            k = k + 1;
        }
        assert(h@ == spec_horizon(f0, light@, light@.len() as int));
        if h.len() == 0 {
            proof {
                assert(!attach_valid(f0, np, p, light@));
            }
            return Err(AttachError::InconsistentHorizon);
        }

        // The horizon must decompose into simple disjoint cycles: sources
        // pairwise distinct, targets pairwise distinct, every target a
        // source and every source a target.
        let mut m: usize = 0;
        while m < h.len()
            invariant
                0 <= m <= h@.len(),
                self == old(self),
                f0 == self.faces@,
                np == self.points@.len(),
                h@ == spec_horizon(f0, light@, light@.len() as int),
                forall|m1: int, m2: int|
                    0 <= m1 < m && 0 <= m2 < h@.len() && m1 != m2 ==> (#[trigger] h@[m1]).0 != (
                    #[trigger] h@[m2]).0 && h@[m1].1 != h@[m2].1,
            decreases h@.len() - m,
        {
            let mut m2: usize = m + 1;
            while m2 < h.len()
                invariant
                    0 <= m < m2 <= h@.len(),
                    self == old(self),
                    f0 == self.faces@,
                    np == self.points@.len(),
                    h@ == spec_horizon(f0, light@, light@.len() as int),
                    forall|j: int| m < j < m2 ==> (#[trigger] h@[j]).0 != h@[m as int].0 && h@[j].1
                        != h@[m as int].1,
                decreases h@.len() - m2,
            {
                if h[m2].0 == h[m].0 || h[m2].1 == h[m].1 {
                    proof {
                        assert(!h_distinct(h@));
                        assert(!attach_valid(f0, np, p, light@));
                    }
                    return Err(AttachError::InconsistentHorizon);
                }
                m2 = m2 + 1;
            }
            m = m + 1;
        }
        assert(h_distinct(h@));
        m = 0;
        while m < h.len()
            invariant
                0 <= m <= h@.len(),
                self == old(self),
                f0 == self.faces@,
                np == self.points@.len(),
                h@ == spec_horizon(f0, light@, light@.len() as int),
                forall|m1: int| 0 <= m1 < m ==> h_has_source(h@, (#[trigger] h@[m1]).1)
                    && h_has_target(h@, h@[m1].0),
            decreases h@.len() - m,
        {
            if !horizon_has_source(&h, h[m].1) || !horizon_has_target(&h, h[m].0) {
                proof {
                    assert(0 <= m < h@.len());
                    assert(!h_cyclic(h@));
                    assert(!attach_valid(f0, np, p, light@));
                }
                return Err(AttachError::InconsistentHorizon);
            }
            m = m + 1;
        }
        assert(h_cyclic(h@));

        // Every surviving face whose edge is mirrored inside the replaced
        // set must find that mirror on the horizon.
        i = 0;
        while i < self.faces.len()
            invariant
                0 <= i <= self.faces@.len(),
                self == old(self),
                f0 == self.faces@,
                np == self.points@.len(),
                h@ == spec_horizon(f0, light@, light@.len() as int),
                forall|k2: int| 0 <= k2 < light@.len() ==> (#[trigger] light@[k2]) < f0.len(),
                forall|i2: int, u: usize, v: usize|
                    0 <= i2 < i && #[trigger] face_edge(f0, i2, u, v) && !light_mem(light@, i2)
                        && light_owns_edge(f0, light@, v, u) ==> h@.contains((v, u)),
            decreases self.faces@.len() - i,
        {
            let f = self.faces[i];
            if f.alive && !ids_contain(light, i) {
                if self.light_has_edge(light, f.b, f.a) && !edges_contain(&h, f.b, f.a) {
                    proof {
                        assert(face_edge(f0, i as int, f.a, f.b));
                        assert(!h_covers(f0, light@, h@));
                        assert(!attach_valid(f0, np, p, light@));
                    }
                    return Err(AttachError::InconsistentHorizon);
                }
                if self.light_has_edge(light, f.c, f.b) && !edges_contain(&h, f.c, f.b) {
                    proof {
                        assert(face_edge(f0, i as int, f.b, f.c));
                        assert(!h_covers(f0, light@, h@));
                        assert(!attach_valid(f0, np, p, light@));
                    }
                    return Err(AttachError::InconsistentHorizon);
                }
                if self.light_has_edge(light, f.a, f.c) && !edges_contain(&h, f.a, f.c) {
                    proof {
                        assert(face_edge(f0, i as int, f.c, f.a));
                        assert(!h_covers(f0, light@, h@));
                        assert(!attach_valid(f0, np, p, light@));
                    }
                    return Err(AttachError::InconsistentHorizon);
                }
                proof {
                    assert forall|u: usize, v: usize|
                        face_edge(f0, i as int, u, v) && light_owns_edge(
                            f0,
                            light@,
                            v,
                            u,
                        ) implies h@.contains((v, u)) by {
                        assert(has_edge(f0[i as int], u, v));
                    }
                }
            }
            i = i + 1;
        }
        assert(h_covers(f0, light@, h@));

        // All checks passed; rewrite the surface.
        k = 0;
        while k < light.len()
            invariant
                0 <= k <= light@.len(),
                self.points@ == pts0,
                self.faces@.len() == f0.len(),
                forall|k2: int| 0 <= k2 < light@.len() ==> (#[trigger] light@[k2] as int)
                    < f0.len(),
                forall|i2: int|
                    0 <= i2 < f0.len() ==> (#[trigger] self.faces@[i2]) == if exists|k2: int|
                        0 <= k2 < k && light@[k2] as int == i2 {
                        kill(f0[i2])
                    } else {
                        f0[i2]
                    },
            decreases light@.len() - k,
        {
            let id = light[k];
            let mut f = self.faces[id];
            f.alive = false;
            self.faces.set(id, f);
            proof {
                assert(self.faces@[id as int] == kill(f0[id as int]));
            }
            k = k + 1;
        }
        let ghost f1: Seq<Face> = self.faces@;
        proof {
            assert forall|i2: int| 0 <= i2 < f0.len() implies (#[trigger] f1[i2]) == if light_mem(
                light@,
                i2,
            ) {
                kill(f0[i2])
            } else {
                f0[i2]
            } by {}
            assert(arena_killed(f0, f1, light@));
        }

        let mut ids: Vec<usize> = Vec::new();
        m = 0;
        while m < h.len()
            invariant
                0 <= m <= h@.len(),
                self.points@ == pts0,
                self.faces@.len() == f1.len() + m,
                f1.len() == f0.len(),
                forall|i2: int| 0 <= i2 < f1.len() ==> (#[trigger] self.faces@[i2]) == f1[i2],
                forall|m2: int| 0 <= m2 < m ==> (#[trigger] self.faces@[f1.len() + m2]) == (Face {
                    a: h@[m2].0,
                    b: h@[m2].1,
                    c: p,
                    alive: true,
                }),
                ids@.len() == m,
                forall|m2: int| 0 <= m2 < m ==> (#[trigger] ids@[m2]) as int == f1.len() + m2,
            decreases h@.len() - m,
        {
            ids.push(self.faces.len());
            self.faces.push(Face { a: h[m].0, b: h[m].1, c: p, alive: true });
            m = m + 1;
        }

        proof {
            assert(arena_extended(f1, self.faces@, h@, p));
            lemma_attach_preserves_closed(f0, f1, self.faces@, light@, h@, p, np);
            assert forall|k3: int| 0 <= k3 < ids@.len() implies face_alive_at(
                self.faces@,
                #[trigger] ids@[k3] as int,
            ) by {
                assert(self.faces@[f1.len() + k3] == (Face {
                    a: h@[k3].0,
                    b: h@[k3].1,
                    c: p,
                    alive: true,
                }));
            }
            assert(attach_valid(f0, np, p, light@));
            let af = attach_faces(f0, light@, h@, p);
            assert forall|i2: int| 0 <= i2 < self.faces@.len() implies (#[trigger] self.faces@[i2])
                == af[i2] by {
                if i2 < f0.len() {
                    assert(self.faces@[i2] == f1[i2]);
                } else {
                    let m2 = i2 - f0.len();
                    assert(self.faces@[f1.len() + m2] == (Face {
                        a: h@[m2].0,
                        b: h@[m2].1,
                        c: p,
                        alive: true,
                    }));
                }
            }
            assert(self.faces@ =~= af);
        }
        Ok(ids)
    }
}

/// The four standard tetrahedron faces over distinct corners form a
/// closed surface.
#[verifier::spinoff_prover]
proof fn lemma_tetrahedron_closed(faces: Seq<Face>, i0: usize, i1: usize, i2: usize, i3: usize)
    requires
        faces.len() == 4,
        i0 != i1 && i0 != i2 && i0 != i3 && i1 != i2 && i1 != i3 && i2 != i3,
        faces[0] == (Face { a: i0, b: i1, c: i2, alive: true }),
        faces[1] == (Face { a: i0, b: i2, c: i3, alive: true }),
        faces[2] == (Face { a: i0, b: i3, c: i1, alive: true }),
        faces[3] == (Face { a: i1, b: i3, c: i2, alive: true }),
    ensures
        is_closed(faces),
{
    assert forall|i: int, j: int, u: usize, v: usize|
        #[trigger] face_edge(faces, i, u, v) && #[trigger] face_edge(faces, j, u, v) implies i
        == j by {
        assert(has_edge(faces[i], u, v) && has_edge(faces[j], u, v));
    }
    assert forall|i: int, u: usize, v: usize| #[trigger] face_edge(faces, i, u, v) implies exists|
        j: int,
    |
        face_alive_at(faces, j) && has_edge(#[trigger] faces[j], v, u) by {
        if has_edge(faces[0], v, u) {
            assert(face_alive_at(faces, 0) && has_edge(faces[0], v, u));
        } else if has_edge(faces[1], v, u) {
            assert(face_alive_at(faces, 1) && has_edge(faces[1], v, u));
        } else if has_edge(faces[2], v, u) {
            assert(face_alive_at(faces, 2) && has_edge(faces[2], v, u));
        } else {
            assert(face_alive_at(faces, 3) && has_edge(faces[3], v, u));
        }
    }
}

/// The heart of the surgery: replacing the lit region by a fan from `p`
/// over a horizon that decomposes into simple disjoint cycles yields a
/// closed well-formed surface again.
proof fn lemma_attach_preserves_closed(
    f0: Seq<Face>,
    f1: Seq<Face>,
    f2: Seq<Face>,
    light: Seq<usize>,
    h: Seq<(usize, usize)>,
    p: usize,
    np: nat,
)
    requires
        faces_wf(f0, np),
        is_closed(f0),
        light_alive(f0, light),
        point_fresh(f0, p, np),
        h_sound(f0, light, h),
        h_distinct(h),
        h_cyclic(h),
        h_covers(f0, light, h),
        arena_killed(f0, f1, light),
        arena_extended(f1, f2, h, p),
    ensures
        faces_wf(f2, np),
        is_closed(f2),
{
    lemma_attach_wf(f0, f1, f2, light, h, p, np);
    lemma_attach_unique(f0, f1, f2, light, h, p, np);
    lemma_attach_matched(f0, f1, f2, light, h, p, np);
}

/// Horizon endpoints are vertices of alive light faces, hence in range
/// and distinct from each other and from `p`.
#[verifier::spinoff_prover]
proof fn lemma_horizon_ends(
    f0: Seq<Face>,
    light: Seq<usize>,
    h: Seq<(usize, usize)>,
    p: usize,
    np: nat,
)
    requires
        faces_wf(f0, np),
        light_alive(f0, light),
        point_fresh(f0, p, np),
        h_sound(f0, light, h),
    ensures
        forall|m: int| 0 <= m < h.len() ==> (#[trigger] h[m]).0 < np && h[m].1 < np && h[m].0
            != h[m].1 && h[m].0 != p && h[m].1 != p,
{
    assert forall|m: int| 0 <= m < h.len() implies (#[trigger] h[m]).0 < np && h[m].1 < np && h[m].0
        != h[m].1 && h[m].0 != p && h[m].1 != p by {
        assert(light_owns_edge(f0, light, h[m].0, h[m].1));
        let k = choose|k: int|
            0 <= k < light.len() && has_edge(#[trigger] f0[light[k] as int], h[m].0, h[m].1);
        let lf = f0[light[k] as int];
        assert(face_alive_at(f0, light[k] as int));
        assert(face_wf(lf, np));
        assert(!has_vertex(lf, p));
    }
}

/// The rewritten arena is well formed.
#[verifier::spinoff_prover]
proof fn lemma_attach_wf(
    f0: Seq<Face>,
    f1: Seq<Face>,
    f2: Seq<Face>,
    light: Seq<usize>,
    h: Seq<(usize, usize)>,
    p: usize,
    np: nat,
)
    requires
        faces_wf(f0, np),
        light_alive(f0, light),
        point_fresh(f0, p, np),
        h_sound(f0, light, h),
        arena_killed(f0, f1, light),
        arena_extended(f1, f2, h, p),
    ensures
        faces_wf(f2, np),
{
    let n0 = f0.len() as int;
    lemma_horizon_ends(f0, light, h, p, np);
    assert forall|i: int| face_alive_at(f2, i) implies face_wf(#[trigger] f2[i], np) by {
        if i < n0 {
            assert(f2[i] == f1[i]);
            assert(face_alive_at(f0, i));
            assert(face_wf(f0[i], np));
        } else {
            let m = i - n0;
            assert(f2[f1.len() + m] == (Face { a: h[m].0, b: h[m].1, c: p, alive: true }));
        }
    }
}

/// No directed edge occurs twice in the rewritten arena.
#[verifier::spinoff_prover]

proof fn lemma_attach_unique(
    f0: Seq<Face>,
    f1: Seq<Face>,
    f2: Seq<Face>,
    light: Seq<usize>,
    h: Seq<(usize, usize)>,
    p: usize,
    np: nat,
)
    requires
        faces_wf(f0, np),
        is_closed(f0),
        light_alive(f0, light),
        point_fresh(f0, p, np),
        h_sound(f0, light, h),
        h_distinct(h),
        arena_killed(f0, f1, light),
        arena_extended(f1, f2, h, p),
    ensures
        edge_unique(f2),
{
    let n0 = f0.len() as int;
    lemma_horizon_ends(f0, light, h, p, np);
    assert forall|i: int, j: int, u: usize, v: usize|
        #[trigger] face_edge(f2, i, u, v) && #[trigger] face_edge(f2, j, u, v) implies i == j by {
        lemma_new_edge_owner(f0, f1, f2, light, h, p, np, i, u, v);
        lemma_new_edge_owner(f0, f1, f2, light, h, p, np, j, u, v);
        if i < n0 && j < n0 {
            assert(face_edge(f0, i, u, v) && face_edge(f0, j, u, v));
        } else if i < n0 && j >= n0 {
            // the shared edge cannot touch p, so it is the fan base edge,
            // which is owned inside the light set -- contradicting survival
            assert((u, v) == (h[j - n0].0, h[j - n0].1));
            assert(light_owns_edge(f0, light, u, v));
            assert(false);
        } else if i >= n0 && j < n0 {
            assert((u, v) == (h[i - n0].0, h[i - n0].1));
            assert(light_owns_edge(f0, light, u, v));
            assert(false);
        } else {
            let m1 = i - n0;
            let m2 = j - n0;
            let e1 = h[m1];
            let e2 = h[m2];
            // which slot of each fan face carries (u, v)?
            if (u, v) == (e1.0, e1.1) && (u, v) == (e2.0, e2.1) {
                assert(m1 == m2);
            } else if (u, v) == (e1.1, p) && (u, v) == (e2.1, p) {
                assert(m1 == m2);
            } else if (u, v) == (p, e1.0) && (u, v) == (p, e2.0) {
                assert(m1 == m2);
            } else {
                // mixed slots force a horizon endpoint to equal p
                assert(false);
            }
        }
    }
}

/// Every directed edge of the rewritten arena is matched by its reversal.
#[verifier::spinoff_prover]
proof fn lemma_attach_matched(
    f0: Seq<Face>,
    f1: Seq<Face>,
    f2: Seq<Face>,
    light: Seq<usize>,
    h: Seq<(usize, usize)>,
    p: usize,
    np: nat,
)
    requires
        faces_wf(f0, np),
        is_closed(f0),
        light_alive(f0, light),
        point_fresh(f0, p, np),
        h_sound(f0, light, h),
        h_cyclic(h),
        h_covers(f0, light, h),
        arena_killed(f0, f1, light),
        arena_extended(f1, f2, h, p),
    ensures
        edge_matched(f2),
{
    let n0 = f0.len() as int;
    assert forall|i: int, u: usize, v: usize| #[trigger] face_edge(f2, i, u, v) implies exists|
        j: int,
    |
        face_alive_at(f2, j) && has_edge(#[trigger] f2[j], v, u) by {
        if i < n0 {
            lemma_matched_old(f0, f1, f2, light, h, p, np, i, u, v);
        } else {
            lemma_matched_fan(f0, f1, f2, light, h, p, np, i, u, v);
        }
    }
}

/// The reversal of an edge of a surviving old face is found either on a
/// surviving face or on a fan base.
#[verifier::spinoff_prover]
proof fn lemma_matched_old(
    f0: Seq<Face>,
    f1: Seq<Face>,
    f2: Seq<Face>,
    light: Seq<usize>,
    h: Seq<(usize, usize)>,
    p: usize,
    np: nat,
    i: int,
    u: usize,
    v: usize,
)
    requires
        faces_wf(f0, np),
        is_closed(f0),
        light_alive(f0, light),
        point_fresh(f0, p, np),
        h_sound(f0, light, h),
        h_covers(f0, light, h),
        arena_killed(f0, f1, light),
        arena_extended(f1, f2, h, p),
        face_edge(f2, i, u, v),
        i < f0.len(),
    ensures
        exists|j: int| face_alive_at(f2, j) && has_edge(#[trigger] f2[j], v, u),
{
    let n0 = f0.len() as int;
    lemma_new_edge_owner(f0, f1, f2, light, h, p, np, i, u, v);
    assert(face_edge(f0, i, u, v));
    let j0 = choose|j: int| face_alive_at(f0, j) && has_edge(#[trigger] f0[j], v, u);
    if light_mem(light, j0) {
        let k = choose|k: int| 0 <= k < light.len() && light[k] as int == j0;
        assert(has_edge(f0[light[k] as int], v, u));
        assert(light_owns_edge(f0, light, v, u));
        assert(h.contains((v, u)));
        let m = choose|m: int| 0 <= m < h.len() && h[m] == (v, u);
        assert(f2[f1.len() + m] == (Face { a: v, b: u, c: p, alive: true }));
        assert(face_alive_at(f2, n0 + m) && has_edge(f2[n0 + m], v, u));
    } else {
        assert(f2[j0] == f1[j0] && f1[j0] == f0[j0]);
        assert(face_alive_at(f2, j0) && has_edge(f2[j0], v, u));
    }
}

/// The reversal of an edge of a fan face is found on a surviving face or
/// on the neighbouring fan face along the horizon cycle.
#[verifier::spinoff_prover]
proof fn lemma_matched_fan(
    f0: Seq<Face>,
    f1: Seq<Face>,
    f2: Seq<Face>,
    light: Seq<usize>,
    h: Seq<(usize, usize)>,
    p: usize,
    np: nat,
    i: int,
    u: usize,
    v: usize,
)
    requires
        faces_wf(f0, np),
        is_closed(f0),
        light_alive(f0, light),
        point_fresh(f0, p, np),
        h_sound(f0, light, h),
        h_cyclic(h),
        arena_killed(f0, f1, light),
        arena_extended(f1, f2, h, p),
        face_edge(f2, i, u, v),
        f0.len() <= i,
    ensures
        exists|j: int| face_alive_at(f2, j) && has_edge(#[trigger] f2[j], v, u),
{
    let n0 = f0.len() as int;
    let m = i - n0;
    let hm = h[m];
    assert(f2[f1.len() + m] == (Face { a: hm.0, b: hm.1, c: p, alive: true }));
    if u == hm.0 && v == hm.1 {
        lemma_matched_fan_base(f0, f1, f2, light, h, p, np, m);
    } else if u == hm.1 && v == p {
        lemma_matched_fan_towards(f1, f2, h, p, m);
    } else {
        assert(u == p && v == hm.0);
        lemma_matched_fan_from(f1, f2, h, p, m);
    }
}

/// The reversal of a fan base edge survives outside the light set.
#[verifier::spinoff_prover]
proof fn lemma_matched_fan_base(
    f0: Seq<Face>,
    f1: Seq<Face>,
    f2: Seq<Face>,
    light: Seq<usize>,
    h: Seq<(usize, usize)>,
    p: usize,
    np: nat,
    m: int,
)
    requires
        is_closed(f0),
        light_alive(f0, light),
        h_sound(f0, light, h),
        arena_killed(f0, f1, light),
        arena_extended(f1, f2, h, p),
        0 <= m < h.len(),
    ensures
        exists|j: int| face_alive_at(f2, j) && has_edge(#[trigger] f2[j], h[m].1, h[m].0),
{
    let hm = h[m];
    assert(light_owns_edge(f0, light, hm.0, hm.1));
    let k = choose|k: int|
        0 <= k < light.len() && has_edge(#[trigger] f0[light[k] as int], hm.0, hm.1);
    assert(face_alive_at(f0, light[k] as int));
    assert(face_edge(f0, light[k] as int, hm.0, hm.1));
    let j0 = choose|j: int| face_alive_at(f0, j) && has_edge(#[trigger] f0[j], hm.1, hm.0);
    if light_mem(light, j0) {
        let k2 = choose|k2: int| 0 <= k2 < light.len() && light[k2] as int == j0;
        assert(has_edge(f0[light[k2] as int], hm.1, hm.0));
        assert(light_owns_edge(f0, light, hm.1, hm.0));
        assert(false);
    }
    assert(f2[j0] == f1[j0] && f1[j0] == f0[j0]);
    assert(face_alive_at(f2, j0) && has_edge(f2[j0], hm.1, hm.0));
}

/// The reversal of a fan side edge running towards `p` lies on the fan
/// face of the successor horizon edge.
#[verifier::spinoff_prover]
proof fn lemma_matched_fan_towards(
    f1: Seq<Face>,
    f2: Seq<Face>,
    h: Seq<(usize, usize)>,
    p: usize,
    m: int,
)
    requires
        arena_extended(f1, f2, h, p),
        h_cyclic(h),
        0 <= m < h.len(),
    ensures
        exists|j: int| face_alive_at(f2, j) && has_edge(#[trigger] f2[j], p, h[m].1),
{
    assert(h_has_source(h, h[m].1));
    lemma_source_witness(h, h[m].1);
    let m2 = choose|m2: int| 0 <= m2 < h.len() && (#[trigger] h[m2]).0 == h[m].1;
    assert(f2[f1.len() + m2] == (Face { a: h[m2].0, b: h[m2].1, c: p, alive: true }));
    assert(face_alive_at(f2, f1.len() + m2) && has_edge(f2[f1.len() + m2], p, h[m].1));
}

/// The reversal of a fan side edge running from `p` lies on the fan face
/// of the predecessor horizon edge.
#[verifier::spinoff_prover]
proof fn lemma_matched_fan_from(
    f1: Seq<Face>,
    f2: Seq<Face>,
    h: Seq<(usize, usize)>,
    p: usize,
    m: int,
)
    requires
        arena_extended(f1, f2, h, p),
        h_cyclic(h),
        0 <= m < h.len(),
    ensures
        exists|j: int| face_alive_at(f2, j) && has_edge(#[trigger] f2[j], h[m].0, p),
{
    assert(h_has_target(h, h[m].0));
    lemma_target_witness(h, h[m].0);
    let m2 = choose|m2: int| 0 <= m2 < h.len() && (#[trigger] h[m2]).1 == h[m].0;
    assert(f2[f1.len() + m2] == (Face { a: h[m2].0, b: h[m2].1, c: p, alive: true }));
    assert(face_alive_at(f2, f1.len() + m2) && has_edge(f2[f1.len() + m2], h[m].0, p));
}

/// In the rewritten arena, an alive face is either a surviving old face
/// (and then its edges avoid `p` and the light set) or a fan face whose
/// edge is one of its three known slots.
#[verifier::spinoff_prover]
proof fn lemma_new_edge_owner(
    f0: Seq<Face>,
    f1: Seq<Face>,
    f2: Seq<Face>,
    light: Seq<usize>,
    h: Seq<(usize, usize)>,
    p: usize,
    np: nat,
    i: int,
    u: usize,
    v: usize,
)
    requires
        faces_wf(f0, np),
        is_closed(f0),
        light_alive(f0, light),
        point_fresh(f0, p, np),
        h_sound(f0, light, h),
        arena_killed(f0, f1, light),
        arena_extended(f1, f2, h, p),
        face_edge(f2, i, u, v),
    ensures
        i < f0.len() ==> face_alive_at(f0, i) && !light_mem(light, i) && has_edge(f0[i], u, v) && u
            != p && v != p && !light_owns_edge(f0, light, u, v),
        i >= f0.len() ==> ((u, v) == (h[i - f0.len()].0, h[i - f0.len()].1) || (u, v) == (
        h[i - f0.len()].1,
        p,
        ) || (u, v) == (p, h[i - f0.len()].0)),
{
    let n0 = f0.len() as int;
    if i < n0 {
        assert(f2[i] == f1[i]);
        if light_mem(light, i) {
            assert(f1[i] == kill(f0[i]));
            assert(false);
        }
        assert(f1[i] == f0[i]);
        assert(face_alive_at(f0, i));
        assert(has_edge(f0[i], u, v));
        assert(!has_vertex(f0[i], p));
        if light_owns_edge(f0, light, u, v) {
            let k = choose|k: int|
                0 <= k < light.len() && has_edge(#[trigger] f0[light[k] as int], u, v);
            assert(face_alive_at(f0, light[k] as int));
            // two alive owners of the same directed edge must coincide
            assert(face_edge(f0, i, u, v));
            assert(face_edge(f0, light[k] as int, u, v));
            assert(light[k] as int == i);
            assert(light_mem(light, i));
            assert(false);
        }
    } else {
        let m = i - n0;
        assert(i == f1.len() + m);
        assert(f2[f1.len() + m] == (Face { a: h[m].0, b: h[m].1, c: p, alive: true }));
    }
}

/// A source fact names a concrete horizon edge.
proof fn lemma_source_witness(h: Seq<(usize, usize)>, v: usize)
    requires
        h_has_source(h, v),
    ensures
        exists|m2: int| 0 <= m2 < h.len() && (#[trigger] h[m2]).0 == v,
{
    reveal(h_has_source);
}

/// A target fact names a concrete horizon edge.
proof fn lemma_target_witness(h: Seq<(usize, usize)>, u: usize)
    requires
        h_has_target(h, u),
    ensures
        exists|m2: int| 0 <= m2 < h.len() && (#[trigger] h[m2]).1 == u,
{
    reveal(h_has_target);
}

/// On a closed well-formed surface, every edge is shared by exactly two
/// faces: an alive face with the edge `u -> v` has exactly one partner
/// face carrying `v -> u`, and no other alive face touches the edge in
/// either direction.
pub proof fn lemma_edge_shared_by_exactly_two_faces(
    faces: Seq<Face>,
    n: nat,
    i: int,
    u: usize,
    v: usize,
)
    requires
        faces_wf(faces, n),
        is_closed(faces),
        face_alive_at(faces, i),
        has_edge(faces[i], u, v),
    ensures
        exists|j: int|
            face_alive_at(faces, j) && has_edge(#[trigger] faces[j], v, u) && j != i && (forall|
                j2: int,
            |
                face_alive_at(faces, j2) && (has_edge(#[trigger] faces[j2], u, v) || has_edge(
                    faces[j2],
                    v,
                    u,
                )) ==> j2 == i || j2 == j),
{
    assert(face_edge(faces, i, u, v));
    let j = choose|j: int| face_alive_at(faces, j) && has_edge(#[trigger] faces[j], v, u);
    // a face with distinct corners cannot carry an edge both ways
    assert(!has_edge(faces[i], v, u));
    assert(j != i);
    assert(face_edge(faces, j, v, u));
    assert(!has_edge(faces[j], u, v));
    assert forall|j2: int|
        face_alive_at(faces, j2) && (has_edge(#[trigger] faces[j2], u, v) || has_edge(
            faces[j2],
            v,
            u,
        )) implies j2 == i || j2 == j by {
        if has_edge(faces[j2], u, v) {
            assert(face_edge(faces, j2, u, v));
        } else {
            assert(face_edge(faces, j2, v, u));
        }
    }
    assert(face_alive_at(faces, j) && has_edge(faces[j], v, u) && j != i && (forall|j2: int|
        face_alive_at(faces, j2) && (has_edge(#[trigger] faces[j2], u, v) || has_edge(
            faces[j2],
            v,
            u,
        )) ==> j2 == i || j2 == j));
}

/// The corner triples of the alive faces among the first `i` arena slots.
pub open spec fn alive_tris(faces: Seq<Face>, i: int) -> Seq<(usize, usize, usize)>
    decreases i,
{
    if i <= 0 || i > faces.len() {
        Seq::empty()
    } else {
        let prefix = alive_tris(faces, i - 1);
        if faces[i - 1].alive {
            prefix.push((faces[i - 1].a, faces[i - 1].b, faces[i - 1].c))
        } else {
            prefix
        }
    }
}

/// How many of the first `i` arena slots hold an alive face.
pub open spec fn count_alive(faces: Seq<Face>, i: int) -> int
    decreases i,
{
    if i <= 0 || i > faces.len() {
        0
    } else {
        count_alive(faces, i - 1) + if faces[i - 1].alive { 1int } else { 0int }
    }
}

} // verus!

use std::collections::HashMap;
use std::collections::HashSet;

use brushgeom::geom::{orient, Vec3};
use brushgeom::hull::build_convex_hull;
use brushgeom::mesh::Mesh;

fn v(x: i64, y: i64, z: i64) -> Vec3 {
    Vec3::new(x, y, z)
}

fn hull_vertex_indices(mesh: &Mesh) -> HashSet<usize> {
    let mut out = HashSet::new();
    for (a, b, c) in mesh.alive_faces() {
        out.insert(a);
        out.insert(b);
        out.insert(c);
    }
    out
}

/// Every undirected edge of the mesh must be shared by exactly two faces,
/// and no directed edge may repeat.
fn assert_closed(mesh: &Mesh) {
    let mut directed: HashMap<(usize, usize), usize> = HashMap::new();
    for (a, b, c) in mesh.alive_faces() {
        for e in [(a, b), (b, c), (c, a)] {
            *directed.entry(e).or_insert(0) += 1;
        }
    }
    for (&(a, b), &count) in &directed {
        assert_eq!(count, 1, "directed edge ({a}, {b}) repeats");
        assert_eq!(
            directed.get(&(b, a)).copied().unwrap_or(0),
            1,
            "edge ({a}, {b}) lacks its partner"
        );
    }
}

/// Every input point must lie on or inside the plane of every face.
fn assert_all_inside(mesh: &Mesh, points: &[Vec3]) {
    for (a, b, c) in mesh.alive_faces() {
        for p in points {
            let o = orient(&mesh.points[a], &mesh.points[b], &mesh.points[c], p);
            assert!(o <= 0, "point {p:?} outside face ({a}, {b}, {c})");
        }
    }
}

// four points in general position give back the tetrahedron itself
#[test]
fn four_points_give_a_tetrahedron() {
    let pts = vec![v(0, 0, 0), v(100, 0, 0), v(0, 100, 0), v(0, 0, 100)];
    let (mesh, dropped) = build_convex_hull(pts.clone());
    assert!(dropped.is_empty());
    assert!(!mesh.is_empty());
    assert_eq!(mesh.alive_face_count(), 4);
    assert_eq!(hull_vertex_indices(&mesh).len(), 4);
    assert_closed(&mesh);
    assert_all_inside(&mesh, &pts);
}

// fewer than four points yield the sentinel, not a crash
#[test]
fn too_few_points_give_the_sentinel() {
    assert!(build_convex_hull(vec![]).0.is_empty());
    assert!(build_convex_hull(vec![v(1, 2, 3)]).0.is_empty());
    assert!(build_convex_hull(vec![v(0, 0, 0), v(1, 0, 0), v(0, 1, 0)]).0.is_empty());
}

// coplanar input yields the sentinel
#[test]
fn coplanar_points_give_the_sentinel() {
    let square = vec![v(0, 0, 0), v(100, 0, 0), v(0, 100, 0), v(100, 100, 0), v(50, 50, 0)];
    assert!(build_convex_hull(square).0.is_empty());
    let repeated = vec![v(7, 7, 7); 6];
    assert!(build_convex_hull(repeated).0.is_empty());
}

// the cube corners form the hull; interior points are dropped
#[test]
fn cube_corners_with_interior_points() {
    let mut pts = Vec::new();
    for &x in &[-100, 100] {
        for &y in &[-100, 100] {
            for &z in &[-100, 100] {
                pts.push(v(x, y, z));
            }
        }
    }
    let corner_count = pts.len();
    pts.push(v(0, 0, 0));
    pts.push(v(10, -20, 30));
    pts.push(v(-50, 50, 0));
    pts.push(v(99, 99, 99));
    let (mesh, dropped) = build_convex_hull(pts.clone());
    assert!(dropped.is_empty());
    assert!(!mesh.is_empty());
    assert_closed(&mesh);
    assert_all_inside(&mesh, &pts);
    let used = hull_vertex_indices(&mesh);
    assert_eq!(used, (0..corner_count).collect::<HashSet<usize>>());
    // a closed triangulated polytope on 8 vertices has 12 faces
    assert_eq!(mesh.alive_face_count(), 12);
}

// a larger cloud in general position: hull is closed and contains all
#[test]
fn general_cloud_is_closed_and_contains_all() {
    let pts = vec![
        v(0, 0, 0),
        v(1000, 3, 7),
        v(-987, 123, -456),
        v(12, 999, -13),
        v(-4, -888, 17),
        v(5, 9, 1023),
        v(-8, 14, -977),
        v(600, 600, 600),
        v(-600, 600, -600),
        v(600, -600, -600),
        v(-600, -600, 600),
        v(123, 456, 789),
        v(-321, -54, 98),
        v(11, -22, 33),
        v(250, 250, -250),
    ];
    let (mesh, dropped) = build_convex_hull(pts.clone());
    assert!(dropped.is_empty());
    assert!(!mesh.is_empty());
    assert_closed(&mesh);
    assert_all_inside(&mesh, &pts);
    assert_eq!(mesh.points.len(), pts.len());
}

// the mesh arena keeps replaced faces as dead entries, so face ids stay
// stable while the surface is rewritten
#[test]
fn replaced_faces_stay_dead_in_the_arena() {
    let pts = vec![
        v(0, 0, 0),
        v(200, 0, 0),
        v(0, 200, 0),
        v(0, 0, 200),
        v(150, 150, 150),
    ];
    let (mesh, dropped) = build_convex_hull(pts);
    assert!(dropped.is_empty());
    assert!(!mesh.is_empty());
    assert_closed(&mesh);
    assert!(mesh.faces.len() >= mesh.alive_face_count());
}

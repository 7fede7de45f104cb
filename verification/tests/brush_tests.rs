use brushgeom::brush::Brush;
use brushgeom::geom::{HomVertex, Vec3};
use brushgeom::level::LevelMap;
use brushgeom::plane::{Decimal, Plane};

fn v(x: i64, y: i64, z: i64) -> Vec3 {
    Vec3::new(x, y, z)
}

fn plane(a: Vec3, b: Vec3, c: Vec3) -> Plane {
    Plane::new(
        [a, b, c],
        String::from("stone"),
        Decimal::from_int(0),
        Decimal::from_int(0),
        Decimal::from_int(0),
        Decimal::from_int(1),
        Decimal::from_int(1),
    )
}

/// The six bounding planes of the cube `[-s, s]^3`, wound so the normals
/// point into the solid.
fn cube_planes(s: i64) -> Vec<Plane> {
    vec![
        // x >= -s
        plane(v(-s, 0, 0), v(-s, 0, 1), v(-s, -1, 0)),
        // x <= s
        plane(v(s, 0, 0), v(s, -1, 0), v(s, 0, 1)),
        // y >= -s
        plane(v(0, -s, 0), v(0, -s, 1), v(1, -s, 0)),
        // y <= s
        plane(v(0, s, 0), v(1, s, 0), v(0, s, 1)),
        // z >= -s
        plane(v(0, 0, -s), v(0, -1, -s), v(1, 0, -s)),
        // z <= s
        plane(v(0, 0, s), v(1, 0, s), v(0, -1, s)),
    ]
}

fn dedup(vs: &[HomVertex]) -> Vec<HomVertex> {
    let mut out: Vec<HomVertex> = Vec::new();
    for x in vs {
        if !out.iter().any(|y| y == x) {
            out.push(*x);
        }
    }
    out
}

// a unit-style cube of six planes yields its eight corners (with
// duplicates from the triple enumeration, removed here)
#[test]
fn cube_brush_has_eight_corners() {
    let b = Brush::new(cube_planes(64));
    let vs = b.vertices();
    // each corner appears once per ordered triple of its three planes
    assert_eq!(vs.len(), 48);
    let unique = dedup(&vs);
    assert_eq!(unique.len(), 8);
    for corner in &unique {
        assert_eq!(corner.w, 1);
        assert!(corner.x == 64 || corner.x == -64);
        assert!(corner.y == 64 || corner.y == -64);
        assert!(corner.z == 64 || corner.z == -64);
    }
}

// every returned vertex lies on the solid side of every plane
#[test]
fn cube_vertices_inside_every_plane() {
    let b = Brush::new(cube_planes(64));
    let vs = b.vertices();
    for vert in &vs {
        for p in &b.planes {
            assert!(p.signed_distance(vert) >= 0);
        }
    }
}

// fewer than four planes can bound nothing
#[test]
fn under_four_planes_yield_nothing() {
    let planes = vec![
        plane(v(0, 0, 0), v(0, 1, 0), v(0, 0, 1)),
        plane(v(0, 0, 0), v(1, 0, 0), v(0, 0, 1)),
        plane(v(0, 0, 0), v(0, 1, 0), v(1, 0, 0)),
    ];
    let b = Brush::new(planes);
    assert_eq!(b.vertices().len(), 0);
    assert_eq!(Brush::new(Vec::new()).vertices().len(), 0);
}

// reconstruction is a function of the planes: two runs agree
#[test]
fn reconstruction_is_repeatable() {
    let b = Brush::new(cube_planes(32));
    let first = b.vertices();
    let second = b.vertices();
    assert_eq!(first, second);
}

// a degenerate (collinear) plane is excluded rather than fatal
#[test]
fn degenerate_plane_is_ignored() {
    let mut planes = cube_planes(64);
    planes.push(plane(v(0, 0, 0), v(1, 1, 1), v(2, 2, 2)));
    let b = Brush::new(planes);
    let vs = b.vertices();
    assert_eq!(vs.len(), 48);
    assert_eq!(dedup(&vs).len(), 8);
}

// an unbounded plane set keeps only the vertices that exist
#[test]
fn parallel_planes_only_yield_nothing() {
    let planes = vec![
        plane(v(0, 0, 0), v(0, 1, 0), v(0, 0, 1)),
        plane(v(1, 0, 0), v(1, 0, 1), v(1, -1, 0)),
        plane(v(2, 0, 0), v(2, 1, 0), v(2, 0, 1)),
        plane(v(3, 0, 0), v(3, 0, 1), v(3, -1, 0)),
    ];
    let b = Brush::new(planes);
    assert_eq!(b.vertices().len(), 0);
}

// the parsed cube map reconstructs the eight corners end to end
#[test]
fn parsed_cube_reconstructs_corners() {
    let text = r#"
        {
        "classname" "worldspawn"
        {
        ( -64 -16 -64 ) ( -64 -16 -63 ) ( -64 -17 -64 ) __TB_empty 0 0 90 1 1
        ( 64 -64 64 ) ( 64 -64 65 ) ( 65 -64 64 ) __TB_empty 0 0 0 1 1
        ( -64 -16 -64 ) ( -64 -17 -64 ) ( -63 -16 -64 ) __TB_empty 0 0 0 1 -1
        ( 64 -48 64 ) ( 65 -48 64 ) ( 64 -49 64 ) __TB_empty 0 0 0 1 -1
        ( -64 64 -64 ) ( -63 64 -64 ) ( -64 64 -63 ) __TB_empty 0 0 0 1 1
        ( 64 -48 64 ) ( 64 -49 64 ) ( 64 -48 65 ) __TB_empty 0 0 90 1 1
        }
        }
    "#;
    let m = LevelMap::from_str(text).unwrap();
    let b = &m.entities[0].brushes[0];
    let vs = b.vertices();
    let unique = dedup(&vs);
    assert_eq!(unique.len(), 8);
    for corner in &unique {
        assert_eq!(corner.w, 1);
        assert_eq!(corner.x.abs(), 64);
        assert_eq!(corner.y.abs(), 64);
        assert_eq!(corner.z.abs(), 64);
        for p in &b.planes {
            assert!(p.signed_distance(corner) >= 0);
        }
    }
}

// plane accessors expose the implied normal and offset
#[test]
fn plane_normal_and_validity() {
    let p = plane(v(-5, 0, 0), v(-5, 0, 1), v(-5, -1, 0));
    let n = p.normal();
    assert_eq!((n.x, n.y, n.z), (1, 0, 0));
    assert_eq!(p.offset(), -5);
    assert!(p.is_valid());
    let d = plane(v(0, 0, 0), v(1, 1, 1), v(2, 2, 2));
    assert!(!d.is_valid());
}

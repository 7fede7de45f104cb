use brushgeom::components::{PlayerBrain, Resolution, Texture};
use brushgeom::error::AttachError;
use brushgeom::geom::Vec3;
use brushgeom::mesh::Mesh;

fn v(x: i64, y: i64, z: i64) -> Vec3 {
    Vec3::new(x, y, z)
}

fn tetra() -> Mesh {
    let pts = vec![v(0, 0, 0), v(100, 0, 0), v(0, 100, 0), v(0, 0, 100), v(50, 50, 50)];
    Mesh::from_tetrahedron(pts, 0, 1, 2, 3)
}

#[test]
fn empty_mesh_is_the_sentinel() {
    let m = Mesh::empty();
    assert!(m.is_empty());
    assert_eq!(m.alive_face_count(), 0);
    assert_eq!(m.alive_faces().len(), 0);
}

#[test]
fn tetrahedron_has_four_faces() {
    let m = tetra();
    assert!(!m.is_empty());
    assert_eq!(m.alive_face_count(), 4);
    assert!(m.face_alive(0) && m.face_alive(1) && m.face_alive(2) && m.face_alive(3));
    assert!(!m.face_alive(4));
}

#[test]
fn attach_refuses_a_bad_light_set() {
    let mut m = tetra();
    assert_eq!(m.attach_point(4, &vec![]), Err(AttachError::InvalidLightSet));
    assert_eq!(m.attach_point(4, &vec![9]), Err(AttachError::InvalidLightSet));
    assert_eq!(m.attach_point(4, &vec![0, 0]), Err(AttachError::InvalidLightSet));
    assert_eq!(m.alive_face_count(), 4);
}

#[test]
fn attach_refuses_a_bad_point() {
    let mut m = tetra();
    // out of range, or already a corner of the surface
    assert_eq!(m.attach_point(5, &vec![0]), Err(AttachError::InvalidPoint));
    assert_eq!(m.attach_point(1, &vec![0]), Err(AttachError::InvalidPoint));
}

#[test]
fn attach_refuses_a_torn_horizon() {
    let mut m = tetra();
    // replacing the whole surface leaves no horizon to patch against
    assert_eq!(
        m.attach_point(4, &vec![0, 1, 2, 3]),
        Err(AttachError::InconsistentHorizon),
    );
}

#[test]
fn attach_replaces_one_face_with_a_fan() {
    let mut m = tetra();
    let ids = m.attach_point(4, &vec![3]).unwrap();
    assert_eq!(ids.len(), 3);
    for id in &ids {
        assert!(m.face_alive(*id));
    }
    assert!(!m.face_alive(3));
    assert_eq!(m.alive_face_count(), 6);
}

#[test]
fn resolution_and_texture_hold_their_data() {
    let r = Resolution::new(800, 600);
    assert_eq!((r.width, r.height), (800, 600));
    let d = Resolution::default();
    assert_eq!((d.width, d.height), (1280, 720));
    let t = Texture { data: vec![0, 1, 2], resolution: r };
    assert_eq!(t.data.len(), 3);
    assert_eq!(t.resolution.width, 800);
    let _marker = PlayerBrain;
}

use cube_tiles::{CubeRotation, Face, Mesh, Vertex};

fn triangle_mesh() -> Mesh {
    Mesh {
        vertices: vec![Vertex([0, 0, 0]), Vertex([1, 0, 0]), Vertex([0, 1, 0])],
        faces: vec![Face::Triangle([0, 1, 2])],
    }
}

#[test]
fn new_mesh_is_empty() {
    let m = Mesh::new();
    assert_eq!(m.vertex_count(), 0);
    assert_eq!(m.face_count(), 0);
    assert!(m.is_valid());
}

#[test]
fn add_geometry_appends_and_shifts_indices() {
    let mut dst = triangle_mesh();
    let src = Mesh {
        vertices: vec![
            Vertex([5, 5, 5]),
            Vertex([6, 5, 5]),
            Vertex([6, 6, 5]),
            Vertex([5, 6, 5]),
        ],
        faces: vec![Face::Quad([0, 1, 2, 3]), Face::Triangle([3, 2, 0])],
    };
    dst.add_geometry(&src);
    assert_eq!(dst.vertex_count(), 3 + 4);
    assert_eq!(dst.face_count(), 1 + 2);
    assert_eq!(dst.vertices[3], Vertex([5, 5, 5]));
    assert_eq!(dst.faces[0], Face::Triangle([0, 1, 2]));
    assert_eq!(dst.faces[1], Face::Quad([3, 4, 5, 6]));
    assert_eq!(dst.faces[2], Face::Triangle([6, 5, 3]));
    assert!(dst.is_valid());
}

#[test]
fn add_geometry_into_empty_copies() {
    let mut dst = Mesh::new();
    let src = triangle_mesh();
    dst.add_geometry(&src);
    assert_eq!(dst.vertices, src.vertices);
    assert_eq!(dst.faces, src.faces);
}

#[test]
fn rotate_moves_vertices_and_keeps_faces() {
    let m = triangle_mesh().rotate(&CubeRotation::rz());
    assert_eq!(m.vertices, vec![Vertex([0, 0, 0]), Vertex([0, 1, 0]), Vertex([-1, 0, 0])]);
    assert_eq!(m.faces, vec![Face::Triangle([0, 1, 2])]);
}

#[test]
fn translate_adds_offset() {
    let m = triangle_mesh().translate(&[10, -20, 30]);
    assert_eq!(m.vertices, vec![Vertex([10, -20, 30]), Vertex([11, -20, 30]), Vertex([10, -19, 30])]);
    assert_eq!(m.faces, vec![Face::Triangle([0, 1, 2])]);
}

#[test]
fn simple_clip_keeps_nonpositive_side() {
    let m = Mesh {
        vertices: vec![
            Vertex([-2, 0, 0]),
            Vertex([3, 0, 0]),
            Vertex([-1, 1, 0]),
            Vertex([0, 2, 0]),
            Vertex([-1, -1, 0]),
        ],
        faces: vec![
            Face::Triangle([0, 2, 3]),
            Face::Triangle([0, 1, 2]),
            Face::Quad([4, 0, 2, 3]),
            Face::Quad([1, 0, 2, 3]),
        ],
    };
    let c = m.simple_clip([1, 0, 0]);
    assert_eq!(
        c.vertices,
        vec![Vertex([-2, 0, 0]), Vertex([-1, 1, 0]), Vertex([0, 2, 0]), Vertex([-1, -1, 0])]
    );
    assert_eq!(c.faces, vec![Face::Triangle([0, 1, 2]), Face::Quad([3, 0, 1, 2])]);
    assert!(c.is_valid());
}

#[test]
fn simple_clip_other_side_and_axis() {
    let m = Mesh {
        vertices: vec![Vertex([0, 0, -1]), Vertex([0, 0, 1]), Vertex([1, 0, 2]), Vertex([0, 1, 3])],
        faces: vec![Face::Triangle([1, 2, 3]), Face::Triangle([0, 1, 2])],
    };
    let c = m.simple_clip([0, 0, -1]);
    assert_eq!(c.vertices, vec![Vertex([0, 0, 1]), Vertex([1, 0, 2]), Vertex([0, 1, 3])]);
    assert_eq!(c.faces, vec![Face::Triangle([0, 1, 2])]);
}

#[test]
fn simple_clip_of_everything_is_empty() {
    let c = triangle_mesh().translate(&[5, 5, 5]).simple_clip([1, 1, 1]);
    assert_eq!(c.vertex_count(), 0);
    assert_eq!(c.face_count(), 0);
}

#[test]
fn validity_check_finds_bad_index() {
    let m = Mesh { vertices: vec![Vertex([0, 0, 0])], faces: vec![Face::Triangle([0, 0, 1])] };
    assert!(!m.is_valid());
    assert!(triangle_mesh().is_valid());
    assert!(triangle_mesh().coords_bounded_by(1));
    assert!(!triangle_mesh().coords_bounded_by(0));
}

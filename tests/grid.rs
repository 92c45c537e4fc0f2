use cube_tiles::grid::{
    clip_normals, generate_connector_cell, generate_twist_cell, twist_cap, CapPiece,
};
use cube_tiles::{
    classify_bounds, compare_range, format_path, generate_cell, generate_grid, twist_rotation,
    Bounds, BoundsClassification, CellID, CubeRotation, Face, Mesh, Range, RangeComparison,
    Tileset, Vertex,
};
use RangeComparison::{Between, Max, Min};

const U: i64 = 1_000_000;

fn piece(x: i64) -> Mesh {
    Mesh {
        vertices: vec![
            Vertex([x, U / 4, U / 4]),
            Vertex([x + U / 4, U / 4, U / 2]),
            Vertex([x, U / 2, U / 4]),
            Vertex([-x, -U / 4, U / 4]),
        ],
        faces: vec![Face::Triangle([0, 1, 2]), Face::Triangle([0, 2, 3])],
    }
}

fn tileset() -> Tileset {
    Tileset::new(piece(U / 8), piece(U / 4), piece(U / 3), piece(U / 5)).unwrap()
}

#[test]
fn bounds_are_inclusive_from_zero() {
    assert_eq!(Bounds::new(5, 3, 1), Bounds(Range(0, 4), Range(0, 2), Range(0, 0)));
}

#[test]
fn classification_of_cell_in_five_cube() {
    let c = classify_bounds(CellID(0, 2, 4), Bounds::new(5, 5, 5));
    assert_eq!(c, BoundsClassification(Min, Between, Max));
}

#[test]
fn compare_range_prefers_min() {
    assert_eq!(compare_range(0, Range(0, 0)), Min);
    assert_eq!(compare_range(3, Range(0, 3)), Max);
    assert_eq!(compare_range(2, Range(0, 3)), Between);
}

#[test]
fn twist_layers_alternate() {
    assert_eq!(twist_rotation(0), CubeRotation::rx());
    assert_eq!(twist_rotation(1), CubeRotation::identity());
    assert_eq!(twist_rotation(4), CubeRotation::rx());
}

#[test]
fn twist_caps_by_classification() {
    assert_eq!(
        twist_cap(BoundsClassification(Min, Between, Between)),
        Some((CapPiece::EndCap, CubeRotation::ry3()))
    );
    assert_eq!(
        twist_cap(BoundsClassification(Between, Between, Max)),
        Some((CapPiece::EndCap, CubeRotation::identity()))
    );
    assert_eq!(
        twist_cap(BoundsClassification(Max, Min, Between)),
        Some((CapPiece::EdgeCap, CubeRotation::rz()))
    );
    assert_eq!(twist_cap(BoundsClassification(Between, Between, Between)), None);
    assert_eq!(twist_cap(BoundsClassification(Min, Min, Min)), None);
    assert_eq!(
        twist_cap(BoundsClassification(Min, Between, Min)),
        Some((CapPiece::EdgeCap, CubeRotation::new([1, 2, 0], [1, 1, 1])))
    );
    assert_eq!(
        twist_cap(BoundsClassification(Between, Min, Max)),
        Some((CapPiece::EdgeCap, CubeRotation::ry()))
    );
}

#[test]
fn edge_caps_cover_all_twelve_edges() {
    let side = |c: RangeComparison| match c {
        Min => -U,
        Max => U,
        Between => 0,
    };
    let kinds = [Min, Between, Max];
    let mut edges = 0;
    for &a in kinds.iter() {
        for &b in kinds.iter() {
            for &c in kinds.iter() {
                let cls = BoundsClassification(a, b, c);
                let boundary = [a, b, c].iter().filter(|&&x| x != Between).count();
                let cap = twist_cap(cls);
                if boundary != 2 {
                    assert!(!matches!(cap, Some((CapPiece::EdgeCap, _))));
                    continue;
                }
                edges += 1;
                let (piece, r) = cap.unwrap();
                assert_eq!(piece, CapPiece::EdgeCap);
                // the cap's outward corner goes to the edge's boundary sides
                assert_eq!(r.apply(&Vertex([-U, -U, 0])), Vertex([side(a), side(b), side(c)]));
                // the cap's axis goes along the edge, pointing its way
                let axis = [a, b, c].iter().position(|&x| x == Between).unwrap();
                let mut along = [0i64; 3];
                along[axis] = U;
                assert_eq!(r.apply(&Vertex([0, 0, U])), Vertex(along));
            }
        }
    }
    assert_eq!(edges, 12);
}

#[test]
fn twist_cell_on_side_edge_holds_edge_cap() {
    let t = tileset();
    // (3, 1, 0) has twist parity and lies on the edge x = max, z = min
    let m = generate_cell(&t, CellID(3, 1, 0), Bounds::new(4, 4, 4));
    assert_eq!(m.vertex_count(), t.edge.vertex_count());
    let r = CubeRotation::new([0, 2, 1], [-1, 1, 1]);
    let expected = r.apply(&Vertex([U / 5, U / 4, U / 4]));
    assert_eq!(m.vertices[0], Vertex([expected.0[0] + 3 * U, expected.0[1] + U, expected.0[2]]));
}

#[test]
fn clip_normals_follow_touched_faces() {
    assert_eq!(clip_normals(BoundsClassification(Between, Between, Between)), Vec::<[i64; 3]>::new());
    assert_eq!(clip_normals(BoundsClassification(Min, Between, Between)), vec![[-1, 0, 0]]);
    assert_eq!(
        clip_normals(BoundsClassification(Between, Max, Min)),
        vec![[0, 1, 0], [0, 0, -1]]
    );
    assert_eq!(
        clip_normals(BoundsClassification(Max, Min, Max)),
        vec![[1, 0, 0], [0, -1, 0], [0, 0, 1]]
    );
}

#[test]
fn tileset_paths() {
    assert_eq!(format_path("sturdy", "one_twist"), "data/sturdy/one_twist.obj");
}

#[test]
fn tileset_rejects_broken_piece() {
    let bad = Mesh { vertices: vec![], faces: vec![Face::Triangle([0, 1, 2])] };
    assert!(Tileset::new(bad, piece(0), piece(0), piece(0)).is_none());
    let far = Mesh { vertices: vec![Vertex([2_000_000_000_000_000_000, 0, 0])], faces: vec![] };
    assert!(Tileset::new(piece(0), far, piece(0), piece(0)).is_none());
}

#[test]
fn interior_twist_cell_holds_four_turned_twists() {
    let t = tileset();
    let m = generate_cell(&t, CellID(1, 1, 2), Bounds::new(5, 5, 5));
    assert_eq!(m.vertex_count(), 16);
    assert_eq!(m.face_count(), 8);
    // first twist vertex (U/8, U/4, U/4), turned by rx, moved to the cell
    assert_eq!(m.vertices[0], Vertex([U / 8 + U, -U / 4 + U, U / 4 + 2 * U]));
    assert_eq!(m.faces[7], Face::Triangle([12, 14, 15]));
}

#[test]
fn boundary_twist_cell_holds_end_cap() {
    let t = tileset();
    let m = generate_twist_cell(&t, CellID(0, 2, 1), Bounds::new(5, 5, 5));
    assert_eq!(m.vertex_count(), 4);
    let ry3 = CubeRotation::ry3();
    let expected = ry3.apply(&Vertex([U / 3, U / 4, U / 4]));
    assert_eq!(m.vertices[0], Vertex([expected.0[0], expected.0[1] + 2 * U, expected.0[2] + U]));
}

#[test]
fn interior_connector_is_eight_corners() {
    let t = tileset();
    let m = generate_connector_cell(&t, CellID(2, 2, 2), CubeRotation::ry(), Bounds::new(5, 5, 5));
    assert_eq!(m.vertex_count(), 32);
    assert_eq!(m.face_count(), 16);
}

#[test]
fn corner_connector_is_clipped_three_times() {
    let t = tileset();
    let bounds = Bounds::new(5, 5, 5);
    let whole = generate_connector_cell(&t, CellID(2, 2, 2), CubeRotation::ry(), bounds);
    let corner = generate_connector_cell(&t, CellID(0, 0, 0), CubeRotation::ry(), bounds);
    let expected = whole
        .translate(&[-2 * U, -2 * U, -2 * U])
        .simple_clip([-1, 0, 0])
        .simple_clip([0, -1, 0])
        .simple_clip([0, 0, -1]);
    assert_eq!(corner.vertices, expected.vertices);
    assert_eq!(corner.faces, expected.faces);
    assert!(corner.vertex_count() < 32);
    assert!(corner.vertices.iter().all(|v| v.0.iter().all(|&c| c >= 0)));
}

#[test]
fn grid_is_the_sum_of_its_cells() {
    let t = tileset();
    let bounds = Bounds::new(2, 2, 2);
    let grid = generate_grid(&t, 2, 2, 2);
    let mut vertices = 0;
    let mut faces = 0;
    let mut merged = Mesh::new();
    for i in 0..2 {
        for j in 0..2 {
            for k in 0..2 {
                let cell = generate_cell(&t, CellID(i, j, k), bounds);
                vertices += cell.vertex_count();
                faces += cell.face_count();
                merged.add_geometry(&cell);
            }
        }
    }
    assert_eq!(grid.vertex_count(), vertices);
    assert_eq!(grid.face_count(), faces);
    assert_eq!(grid.vertices, merged.vertices);
    assert_eq!(grid.faces, merged.faces);
    assert!(grid.is_valid());
}

#[test]
fn single_cell_grid() {
    let t = tileset();
    let grid = generate_grid(&t, 1, 1, 1);
    let cell = generate_cell(&t, CellID(0, 0, 0), Bounds::new(1, 1, 1));
    assert_eq!(grid.vertices, cell.vertices);
    assert_eq!(grid.faces, cell.faces);
}

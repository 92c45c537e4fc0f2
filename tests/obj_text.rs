use cube_tiles::{Face, Mesh, ParseError, Vertex};

fn parse(text: &str) -> Result<Mesh, ParseError> {
    Mesh::parse_obj(text.as_bytes())
}

#[test]
fn parses_vertices_and_faces() {
    let m = parse("# a comment\nv 1 2 3\nv 0.5 -1.25 0\nv -0.000001 +2. .75\nf 1 2 3\nvn 0 0 1\nf 3 2 1 2\n").unwrap();
    assert_eq!(
        m.vertices,
        vec![
            Vertex([1000000, 2000000, 3000000]),
            Vertex([500000, -1250000, 0]),
            Vertex([-1, 2000000, 750000]),
        ]
    );
    assert_eq!(m.faces, vec![Face::Triangle([0, 1, 2]), Face::Quad([2, 1, 0, 1])]);
}

#[test]
fn face_indices_drop_secondary_fields() {
    let m = parse("v 0 0 0\nv 1 0 0\nv 0 1 0\nf 1/4/7 2//8 3/5\n").unwrap();
    assert_eq!(m.faces, vec![Face::Triangle([0, 1, 2])]);
}

#[test]
fn carriage_returns_are_ignored() {
    let m = parse("v 1 0 0\r\nv 0 1 0\r\nv 0 0 1\r\nf 1 2 3\r\n").unwrap();
    assert_eq!(m.vertex_count(), 3);
    assert_eq!(m.faces, vec![Face::Triangle([0, 1, 2])]);
}

#[test]
fn digits_past_the_sixth_round_to_nearest() {
    let m = parse("v 0.1234567 -0.0000009 12.5\nv 0.0000005 0.00000049 -0.0000015\nv 0.9999995 0.1234564999 -0.00000050\n").unwrap();
    assert_eq!(
        m.vertices,
        vec![
            Vertex([123457, -1, 12500000]),
            Vertex([1, 0, -2]),
            Vertex([1000000, 123456, -1]),
        ]
    );
}

#[test]
fn exponent_values_round_to_nearest() {
    let m = parse("v 5e-7 4.9e-7 -1.5e-6\nv 15e-7 1234565e-12 9.9999995e-1\n").unwrap();
    assert_eq!(
        m.vertices,
        vec![Vertex([1, 0, -2]), Vertex([2, 1, 1000000])]
    );
}

#[test]
fn empty_text_is_empty_mesh() {
    let m = parse("").unwrap();
    assert_eq!(m.vertex_count(), 0);
    assert_eq!(m.face_count(), 0);
}

#[test]
fn vertex_arity_error() {
    assert_eq!(parse("v 1 2\n").err(), Some(ParseError::VertexArity));
    assert_eq!(parse("v 1 2 3 4\n").err(), Some(ParseError::VertexArity));
    assert_eq!(parse("v 1 2\t\n").err(), Some(ParseError::VertexArity));
}

#[test]
fn runs_of_whitespace_separate_words() {
    let m = parse("v 1 2  3\nv\t4\t5 \t 6\n  v 7 8 9   \n \t \nf  1\t2 3\n").unwrap();
    assert_eq!(
        m.vertices,
        vec![
            Vertex([1000000, 2000000, 3000000]),
            Vertex([4000000, 5000000, 6000000]),
            Vertex([7000000, 8000000, 9000000]),
        ]
    );
    assert_eq!(m.faces, vec![Face::Triangle([0, 1, 2])]);
}

#[test]
fn exponent_notation_is_read() {
    let m = parse("v 1e3 1.5e2 -2.5E-3\nv 1e-7 123456789e-14 0.000000000001e12\nv 0e99999999999999999999999 -1e-99999999999999999999999 +4.E+0\n").unwrap();
    assert_eq!(
        m.vertices,
        vec![
            Vertex([1000000000, 150000000, -2500]),
            Vertex([0, 1, 1000000]),
            Vertex([0, 0, 4000000]),
        ]
    );
}

#[test]
fn bad_coordinate_error() {
    assert_eq!(parse("v a 1 2\n").err(), Some(ParseError::BadCoordinate));
    assert_eq!(parse("v 1e 1 2\n").err(), Some(ParseError::BadCoordinate));
    assert_eq!(parse("v e3 1 2\n").err(), Some(ParseError::BadCoordinate));
    assert_eq!(parse("v 1e3.5 1 2\n").err(), Some(ParseError::BadCoordinate));
    assert_eq!(parse("v 1e1000 1 2\n").err(), Some(ParseError::BadCoordinate));
    assert_eq!(parse("v 4.000000000000000001e12 1 2\n").err(), Some(ParseError::BadCoordinate));
    assert_eq!(parse("v 1e99999999999999999999999 1 2\n").err(), Some(ParseError::BadCoordinate));
    assert_eq!(parse("v . 1 2\n").err(), Some(ParseError::BadCoordinate));
    assert_eq!(parse("v - 1 2\n").err(), Some(ParseError::BadCoordinate));
    assert_eq!(parse("v 4000000000001 1 2\n").err(), Some(ParseError::BadCoordinate));
    assert!(parse("v 4000000000000 1 2\n").is_ok());
    assert!(parse("v 4e12 1 2\n").is_ok());
}

#[test]
fn face_arity_error() {
    assert_eq!(parse("v 0 0 0\nf 1 1\n").err(), Some(ParseError::FaceArity));
    assert_eq!(parse("v 0 0 0\nf 1 1 1 1 1\n").err(), Some(ParseError::FaceArity));
}

#[test]
fn bad_face_index_error() {
    assert_eq!(parse("v 0 0 0\nf 1 x 1\n").err(), Some(ParseError::BadFaceIndex));
    assert_eq!(parse("v 0 0 0\nf 0 1 1\n").err(), Some(ParseError::BadFaceIndex));
    assert_eq!(parse("v 0 0 0\nf -1 1 1\n").err(), Some(ParseError::BadFaceIndex));
}

#[test]
fn index_out_of_range_error() {
    assert_eq!(parse("v 0 0 0\nf 1 2 1\n").err(), Some(ParseError::IndexOutOfRange));
}

#[test]
fn first_bad_line_decides() {
    assert_eq!(parse("f 1 2\nv 1 2\n").err(), Some(ParseError::FaceArity));
}

#[test]
fn saves_vertices_then_faces() {
    let m = Mesh {
        vertices: vec![Vertex([1000000, -500000, 0]), Vertex([-1, 12345678, 7]), Vertex([0, 0, 0])],
        faces: vec![Face::Triangle([0, 1, 2]), Face::Quad([2, 1, 0, 1])],
    };
    let text = String::from_utf8(m.to_obj_text()).unwrap();
    assert_eq!(
        text,
        "v 1 -0.5 0\nv -0.000001 12.345678 0.000007\nv 0 0 0\nf 1 2 3\nf 3 2 1 2\n"
    );
}

#[test]
fn saves_coordinates_in_shortest_form() {
    let m = Mesh {
        vertices: vec![
            Vertex([1000000, 2000000, 3000000]),
            Vertex([500000, -1000000, 0]),
            Vertex([0, 0, 1000000]),
        ],
        faces: vec![Face::Triangle([0, 1, 2])],
    };
    let text = String::from_utf8(m.to_obj_text()).unwrap();
    assert_eq!(text, "v 1 2 3\nv 0.5 -1 0\nv 0 0 1\nf 1 2 3\n");
    let m = Mesh {
        vertices: vec![Vertex([2250000, 100000, -4000000000000000000])],
        faces: vec![],
    };
    let text = String::from_utf8(m.to_obj_text()).unwrap();
    assert_eq!(text, "v 2.25 0.1 -4000000000000\n");
}

#[test]
fn save_then_load_round_trips() {
    let m = Mesh {
        vertices: vec![
            Vertex([1000000, -500000, 0]),
            Vertex([-1, 12345678, 7]),
            Vertex([999999999999999999, -1000000000000000000, 250000]),
            Vertex([4000000000000000000, -4000000000000000000, -3999999999999999999]),
        ],
        faces: vec![Face::Triangle([0, 1, 2]), Face::Quad([2, 1, 0, 1])],
    };
    let back = Mesh::parse_obj(&m.to_obj_text()).unwrap();
    assert_eq!(back.vertices, m.vertices);
    assert_eq!(back.faces, m.faces);
}

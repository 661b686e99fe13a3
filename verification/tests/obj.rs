use rasterizer::graphics::Color;
use rasterizer::loader::{
    load, load_mesh, parse_line, parse_number, parse_reference, split, Flaw, LoadError, MeshError,
    Record, Span,
};
use rasterizer::math::{Vector2, Vector3};
use rasterizer::mesh::Face;
use rasterizer::scalar::Scalar;
use rasterizer::shaders::{Shader, StandardShader};

fn text_of(text: &[u8], span: Span) -> &str {
    std::str::from_utf8(&text[span.start..span.end]).unwrap()
}

const QUAD: &[u8] = b"# a square\nv -1.0 -1.0 0.0\nv 1.0 -1.0 0.0\nv 1.0 1.0 0.0\nv -1.0 1.0 0.0\nvt 0.0 0.0\nvt 1.0 0.0\nvt 1.0 1.0\nvt 0.0 1.0\nvn 0.0 0.0 1.0\n\nf 1/1/1 2/2/1 3/3/1\nf 1/1/1 3/3/1 4/4/1\n";

#[test]
fn load_reads_vertices_uvs_and_faces() {
    let mesh = load(QUAD).unwrap();
    assert_eq!(mesh.vertices.len(), 4);
    assert_eq!(mesh.uvs.len(), 4);
    assert_eq!(
        mesh.faces,
        vec![
            Face::new(0, 1, 2, 0, 1, 2),
            Face::new(0, 2, 3, 0, 2, 3),
        ]
    );
    let v = mesh.vertices[1];
    assert_eq!(text_of(QUAD, v.x), "1.0");
    assert_eq!(text_of(QUAD, v.y), "-1.0");
    assert_eq!(text_of(QUAD, v.z), "0.0");
    let t = mesh.uvs[3];
    assert_eq!(text_of(QUAD, t.u), "0.0");
    assert_eq!(text_of(QUAD, t.v), "1.0");
    for f in &mesh.faces {
        assert!(f.is_within(mesh.vertices.len(), mesh.uvs.len()));
    }
}

#[test]
fn load_of_nothing_is_an_empty_mesh() {
    let mesh = load(b"").unwrap();
    assert!(mesh.vertices.is_empty());
    assert!(mesh.uvs.is_empty());
    assert!(mesh.faces.is_empty());
    let mesh = load(b"\n\n# nothing here\no cube\ns off\nv\nf\nvt\n").unwrap();
    assert!(mesh.vertices.is_empty());
    assert!(mesh.uvs.is_empty());
    assert!(mesh.faces.is_empty());
}

#[test]
fn load_counts_references_from_one() {
    let text = b"v 0 0 0\nv 1 0 0\nv 0 1 0\nvt 0 0\nf 3/1 2/1 1/1";
    let mesh = load(text).unwrap();
    assert_eq!(mesh.faces, vec![Face::new(2, 1, 0, 0, 0, 0)]);
}

#[test]
fn load_takes_the_first_three_corners() {
    let text = b"v 0 0 0\nv 1 0 0\nv 0 1 0\nv 1 1 0\nvt 0 0\nf 1/1 2/1 3/1 4/1\n";
    let mesh = load(text).unwrap();
    assert_eq!(mesh.faces, vec![Face::new(0, 1, 2, 0, 0, 0)]);
}

#[test]
fn load_accepts_texture_coordinates_given_later() {
    let text = b"v 0 0 0\nf 1/2 1/1 1/2\nvt 0 0\nvt 1 1\n";
    let mesh = load(text).unwrap();
    assert_eq!(mesh.faces, vec![Face::new(0, 0, 0, 1, 0, 1)]);
}

#[test]
fn load_takes_extra_coordinates_as_they_are() {
    let text = b"v 1 2 3 4\nvt 0.5 0.25 0\n";
    let mesh = load(text).unwrap();
    assert_eq!(text_of(text, mesh.vertices[0].z), "3");
    assert_eq!(text_of(text, mesh.uvs[0].v), "0.25");
}

#[test]
fn load_rejects_a_vertex_with_too_few_coordinates() {
    assert_eq!(
        load(b"v 1 2 3\nv 1 2\n").unwrap_err(),
        LoadError::Line { line: 1, flaw: Flaw::MissingField }
    );
    assert_eq!(
        load(b"vt 1\n").unwrap_err(),
        LoadError::Line { line: 0, flaw: Flaw::MissingField }
    );
}

#[test]
fn load_rejects_a_face_with_too_few_corners() {
    assert_eq!(
        load(b"v 0 0 0\nvt 0 0\nf 1/1 1/1\n").unwrap_err(),
        LoadError::Line { line: 2, flaw: Flaw::MissingField }
    );
}

#[test]
fn load_rejects_a_corner_without_texture_coordinate() {
    assert_eq!(
        load(b"v 0 0 0\nvt 0 0\nf 1/1 1 1/1\n").unwrap_err(),
        LoadError::Line { line: 2, flaw: Flaw::MissingField }
    );
}

#[test]
fn load_rejects_references_that_are_no_numbers() {
    let bad: [&[u8]; 8] = [
        b"v 0 0 0\nvt 0 0\nf 1/1 x/1 1/1\n",
        b"v 0 0 0\nvt 0 0\nf 1/1 1/ 1/1\n",
        b"v 0 0 0\nvt 0 0\nf 1/1 /1 1/1\n",
        b"v 0 0 0\nvt 0 0\nf 1/1 -1/1 1/1\n",
        b"v 0 0 0\nvt 0 0\nf 1/1 0/1 1/1\n",
        b"v 0 0 0\nvt 0 0\nf 1/1 1/0 1/1\n",
        b"v 0 0 0\nvt 0 0\nf 1/1  1/1 1/1\n",
        b"v 0 0 0\nvt 0 0\nf 1/1 1/1 1/1 \n",
    ];
    for text in bad {
        assert_eq!(
            load(text).unwrap_err(),
            LoadError::Line { line: 2, flaw: Flaw::InvalidIndex }
        );
    }
    assert_eq!(
        load(b"v 0 0 0\nvt 0 0\nf 1/1 1/1 1/1 99999999999999999999999999/1\n").unwrap_err(),
        LoadError::Line { line: 2, flaw: Flaw::InvalidIndex }
    );
}

#[test]
fn load_rejects_a_vertex_that_was_not_given_yet() {
    assert_eq!(
        load(b"v 0 0 0\nv 1 1 1\nvt 0 0\nf 1/1 2/1 3/1\nv 2 2 2\n").unwrap_err(),
        LoadError::Line { line: 3, flaw: Flaw::VertexOutOfRange }
    );
    assert_eq!(
        load(b"f 1/1 1/1 1/1\n").unwrap_err(),
        LoadError::Line { line: 0, flaw: Flaw::VertexOutOfRange }
    );
}

#[test]
fn load_rejects_a_texture_coordinate_that_is_never_given() {
    assert_eq!(
        load(b"v 0 0 0\nvt 0 0\nf 1/1 1/1 1/1\nf 1/1 1/2 1/1\nf 1/3 1/1 1/1\n").unwrap_err(),
        LoadError::UvOutOfRange { face: 1 }
    );
    assert_eq!(load(b"v 0 0 0\nf 1/1 1/1 1/1\n").unwrap_err(), LoadError::UvOutOfRange { face: 0 });
}

#[test]
fn load_reports_the_first_flaw() {
    assert_eq!(
        load(b"v 0 0 0\nv 1\nf x\n").unwrap_err(),
        LoadError::Line { line: 1, flaw: Flaw::MissingField }
    );
    assert_eq!(
        load(b"v 0 0 0\nf 1/9 1/9 1/9\nv 1\n").unwrap_err(),
        LoadError::Line { line: 2, flaw: Flaw::MissingField }
    );
}

#[test]
fn split_cuts_at_every_separator() {
    let text = b"a bc  d ";
    let spans = split(text, b' ', 0, text.len());
    let fields: Vec<&str> = spans.iter().map(|s| text_of(text, *s)).collect();
    assert_eq!(fields, vec!["a", "bc", "", "d", ""]);
    assert_eq!(split(text, b' ', 2, 4), vec![Span { start: 2, end: 4 }]);
    assert_eq!(split(text, b' ', 3, 3), vec![Span { start: 3, end: 3 }]);
    assert_eq!(split(b"", b'\n', 0, 0), vec![Span { start: 0, end: 0 }]);
    assert_eq!(
        split(b"\n", b'\n', 0, 1),
        vec![Span { start: 0, end: 0 }, Span { start: 1, end: 1 }]
    );
}

#[test]
fn parse_number_reads_decimal() {
    let n = |t: &[u8]| parse_number(t, 0, t.len());
    assert_eq!(n(b"0"), Some(0));
    assert_eq!(n(b"7"), Some(7));
    assert_eq!(n(b"+7"), Some(7));
    assert_eq!(n(b"007"), Some(7));
    assert_eq!(n(b"1234567890"), Some(1234567890));
    assert_eq!(n(b""), None);
    assert_eq!(n(b"+"), None);
    assert_eq!(n(b"-7"), None);
    assert_eq!(n(b"++7"), None);
    assert_eq!(n(b"7+"), None);
    assert_eq!(n(b" 7"), None);
    assert_eq!(n(b"7 "), None);
    assert_eq!(n(b"7.0"), None);
    assert_eq!(n(b"7\r"), None);
    let max = format!("{}", usize::MAX);
    assert_eq!(n(max.as_bytes()), Some(usize::MAX));
    let over = format!("{}0", usize::MAX);
    assert_eq!(n(over.as_bytes()), None);
    let next = format!("{}", (usize::MAX as u128) + 1);
    assert_eq!(n(next.as_bytes()), None);
    assert_eq!(parse_number(b"12 34", 3, 5), Some(34));
    assert_eq!(parse_number(b"12 34", 1, 4), None);
}

#[test]
fn parse_number_agrees_with_std() {
    let tokens: [&str; 12] =
        ["0", "1", "+1", "-1", "", "+", "12a", "a12", "0012", "18446744073709551615",
         "18446744073709551616", "99999999999999999999999"];
    for t in tokens {
        assert_eq!(parse_number(t.as_bytes(), 0, t.len()), t.parse::<usize>().ok(), "{}", t);
    }
}

#[test]
fn parse_reference_counts_from_one() {
    let r = |t: &[u8]| parse_reference(t, Span { start: 0, end: t.len() });
    assert_eq!(r(b"1"), Some(0));
    assert_eq!(r(b"42"), Some(41));
    assert_eq!(r(b"0"), None);
    assert_eq!(r(b"x"), None);
    assert_eq!(r(b""), None);
}

#[test]
fn parse_line_tells_the_kinds_apart() {
    let line = |t: &[u8], n: usize| parse_line(t, Span { start: 0, end: t.len() }, n);
    assert_eq!(line(b"", 0), Ok(Record::Nothing));
    assert_eq!(line(b"v ", 0), Ok(Record::Nothing));
    assert_eq!(line(b"# v 1 2 3", 0), Ok(Record::Nothing));
    assert_eq!(line(b"vn 0 0 1", 0), Ok(Record::Nothing));
    assert_eq!(line(b"g f 1/1 1/1 1/1", 0), Ok(Record::Nothing));
    assert!(matches!(line(b"v 1 2 3", 0), Ok(Record::Vertex(_))));
    assert!(matches!(line(b"vt 1 2", 0), Ok(Record::Uv(_))));
    assert_eq!(
        line(b"f 1/2/3 2/3/4 3/4/5", 3),
        Ok(Record::Face(Face::new(0, 1, 2, 1, 2, 3)))
    );
    assert_eq!(line(b"f 1/2/3 2/3/4 3/4/5", 2), Err(Flaw::VertexOutOfRange));
    assert_eq!(line(b"v  1 2", 0).map(|r| matches!(r, Record::Vertex(_))), Ok(true));
    assert_eq!(line(b"vt1", 0), Err(Flaw::MissingField));
    assert_eq!(line(b"vt 1", 0), Err(Flaw::MissingField));
    assert_eq!(
        line(b"vt1 2", 0),
        Ok(Record::Uv(rasterizer::loader::UvText {
            u: Span { start: 3, end: 3 },
            v: Span { start: 4, end: 5 },
        }))
    );
    let t = b"xx\nvt 0.5 0.75\nyy";
    match parse_line(t, Span { start: 3, end: 14 }, 0) {
        Ok(Record::Uv(uv)) => {
            assert_eq!(text_of(t, uv.u), "0.5");
            assert_eq!(text_of(t, uv.v), "0.75");
        }
        other => panic!("{:?}", other),
    }
}

#[test]
fn load_mesh_reads_the_numbers() {
    let s = |x: f32| Scalar::from_bits(x.to_bits());
    let text = b"v 0.0 0.0 0.5\nv 2 0 0.5\nv 0.0 3.0 5e-1\nvt 0.25 0.75\nvt 1.0 0.0\nf 1/1 2/2 3/1\n";
    let mesh = load_mesh(text).unwrap();
    assert_eq!(
        mesh.vertices,
        vec![
            Vector3::new(s(0.0), s(0.0), s(0.5)),
            Vector3::new(s(2.0), s(0.0), s(0.5)),
            Vector3::new(s(0.0), s(3.0), s(0.5)),
        ]
    );
    // v is counted from the other end
    assert_eq!(mesh.uvs, vec![Vector2::new(s(0.25), s(0.25)), Vector2::new(s(1.0), s(1.0))]);
    assert_eq!(mesh.faces.len(), 1);
    let face = mesh.faces[0];
    assert_eq!((face.a, face.b, face.c, face.uva, face.uvb, face.uvc), (0, 1, 2, 0, 1, 0));
    assert_eq!(face.normal, Vector3::new(s(0.0), s(0.0), s(1.0)));
    assert!(mesh.is_valid());
    assert!(matches!(mesh.shader, Shader::Standard(StandardShader { color: Color(255, 255, 255) })));
    assert_eq!(mesh.transformation.position(), Vector3::new(s(0.0), s(0.0), s(0.0)));
}

#[test]
fn load_mesh_reads_what_the_square_holds() {
    let mesh = load_mesh(QUAD).unwrap();
    assert_eq!(mesh.vertices.len(), 4);
    assert_eq!(mesh.uvs.len(), 4);
    assert_eq!(mesh.faces.len(), 2);
    for face in &mesh.faces {
        assert_eq!(f32::from_bits(face.normal.z.to_bits()), 1.0);
    }
    assert_eq!(f32::from_bits(mesh.vertices[0].x.to_bits()), -1.0);
    assert_eq!(f32::from_bits(mesh.uvs[3].y.to_bits()), 0.0);
}

#[test]
fn load_mesh_says_what_it_cannot_read() {
    let error = |text: &[u8]| load_mesh(text).err().unwrap();
    assert_eq!(
        error(b"v 1 2\n"),
        MeshError::Load(LoadError::Line { line: 0, flaw: Flaw::MissingField })
    );
    assert_eq!(error(b"v 1 2 3\nv 1 x 3\nv 1 2 y\n"), MeshError::UnreadVertex { index: 1 });
    assert_eq!(error(b"v 1 2 3\r\n"), MeshError::UnreadVertex { index: 0 });
    assert_eq!(error(b"v  1 2 3\n"), MeshError::UnreadVertex { index: 0 });
    assert_eq!(error(b"v 1 2 3\nvt 0.5 0.5\nvt 0.5 1,5\n"), MeshError::UnreadUv { index: 1 });
    assert_eq!(error(b"v x y z\nvt a b\n"), MeshError::UnreadVertex { index: 0 });
    assert_eq!(error(b"v 1 2 3\nf 1/1 1/1 1/1\n"), MeshError::Load(LoadError::UvOutOfRange { face: 0 }));
}

#[test]
fn load_mesh_reads_numerals_of_any_length() {
    let mesh = load_mesh(
        b"v 0.10000000000000000000000000000000000000000000000000000000000000000000 \
          123456789012345678901234567890123456789 \
          1234567890123456789012345678901234567890\n",
    )
    .unwrap();
    assert_eq!(f32::from_bits(mesh.vertices[0].x.to_bits()), 0.1);
    assert_eq!(f32::from_bits(mesh.vertices[0].y.to_bits()), 1.2345679e38);
    assert_eq!(f32::from_bits(mesh.vertices[0].z.to_bits()), f32::INFINITY);
}

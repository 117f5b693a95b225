use tiny3d_core::io::FileGeometry;
use tiny3d_core::ply::{
    face_property, find_prop, parse_header, point_cloud_header_bytes, read_file_geometry_type_ply,
    triangle_mesh_header_bytes, vertex_layout, PlyType, PlyWriter, PropTarget,
};

const MESH_HEADER: &str = "ply\n\
format ascii 1.0\n\
comment made by hand\n\
element vertex 4\n\
property float x\n\
property float y\n\
property float z\n\
property uchar red\n\
element face 2\n\
property list uchar int vertex_indices\n\
end_header\n\
0 0 0 1\n";

#[test]
fn parses_a_mesh_header() {
    let h = parse_header(MESH_HEADER.as_bytes()).expect("header");
    assert!(h.ascii);
    assert!(h.little_endian);
    assert_eq!(h.elements.len(), 2);
    assert_eq!(h.elements[0].name, b"vertex".to_vec());
    assert_eq!(h.elements[0].count, 4);
    assert_eq!(h.elements[0].properties.len(), 4);
    assert_eq!(h.elements[0].properties[3].name, b"red".to_vec());
    assert_eq!(h.elements[0].properties[3].ptype, PlyType::Uint8);
    let face = &h.elements[1];
    assert_eq!(face.name, b"face".to_vec());
    assert_eq!(face.count, 2);
    assert!(face.properties[0].is_list);
    assert_eq!(face.properties[0].length_type, PlyType::Uint8);
    assert_eq!(face.properties[0].ptype, PlyType::Int32);
    assert_eq!(h.data_offset, MESH_HEADER.len() - "0 0 0 1\n".len());
}

#[test]
fn binary_formats_and_crlf_lines() {
    let be = "ply\r\nformat binary_big_endian 1.0\r\nelement vertex +3\r\nproperty double x\r\nend_header\r\n";
    let h = parse_header(be.as_bytes()).expect("header");
    assert!(!h.ascii);
    assert!(!h.little_endian);
    assert_eq!(h.elements[0].count, 3);
    assert_eq!(h.elements[0].properties[0].ptype, PlyType::Float64);
    assert_eq!(h.data_offset, be.len());
    let le = "  ply \nformat binary_little_endian 1.0\nend_header\n";
    let h = parse_header(le.as_bytes()).expect("header");
    assert!(!h.ascii && h.little_endian);
    assert!(h.elements.is_empty());
}

#[test]
fn malformed_headers_are_refused() {
    let bad = [
        "plyx\nformat ascii 1.0\nend_header\n",
        "ply\nelement vertex 1\nend_header\n",
        "ply\nformat ascii 1.0\nproperty float x\nend_header\n",
        "ply\nformat ascii 1.0\nelement vertex -1\nend_header\n",
        "ply\nformat ascii 1.0\nelement vertex +\nend_header\n",
        "ply\nformat ascii 1.0\nelement vertex 1\nproperty float\nend_header\n",
        "ply\nformat ascii 1.0\nelement vertex 1\nproperty half x\nend_header\n",
        "ply\nformat ascii 1.0\nelement vertex 1\nproperty list uchar x\nend_header\n",
        "ply\nformat ascii 2.0 extra\nformat ebcdic 1.0\nend_header\n",
        "ply\nformat ascii 1.0\nelement vertex 99999999999999999999999\nend_header\n",
        "ply\nformat ascii 1.0\nend_header",
        "ply",
    ];
    for text in bad.iter() {
        assert!(parse_header(text.as_bytes()).is_none(), "{}", text);
    }
    let not_utf8: Vec<u8> = b"ply\nformat ascii 1.0\ncomment \xff\xfe\nend_header\n".to_vec();
    assert!(parse_header(&not_utf8).is_none());
}

#[test]
fn unknown_lines_are_skipped() {
    let text = "ply\nformat ascii 1.0\n\nobj_info x\nsomething else\nelement v 0\nend_header\n";
    let h = parse_header(text.as_bytes()).expect("header");
    assert_eq!(h.elements.len(), 1);
    assert_eq!(h.elements[0].count, 0);
}

#[test]
fn type_names_and_sizes() {
    let names: [(&str, PlyType, usize); 16] = [
        ("int8", PlyType::Int8, 1),
        ("char", PlyType::Int8, 1),
        ("uint8", PlyType::Uint8, 1),
        ("uchar", PlyType::Uint8, 1),
        ("int16", PlyType::Int16, 2),
        ("short", PlyType::Int16, 2),
        ("uint16", PlyType::Uint16, 2),
        ("ushort", PlyType::Uint16, 2),
        ("int32", PlyType::Int32, 4),
        ("int", PlyType::Int32, 4),
        ("uint32", PlyType::Uint32, 4),
        ("uint", PlyType::Uint32, 4),
        ("float32", PlyType::Float32, 4),
        ("float", PlyType::Float32, 4),
        ("float64", PlyType::Float64, 8),
        ("double", PlyType::Float64, 8),
    ];
    for (name, t, size) in names.iter() {
        assert_eq!(PlyType::parse(name.as_bytes()), Some(*t));
        assert_eq!(t.size(), *size);
    }
    assert_eq!(PlyType::parse(b"half"), None);
    assert_eq!(PlyType::parse(b""), None);
}

#[test]
fn geometry_type_from_header() {
    assert_eq!(read_file_geometry_type_ply(MESH_HEADER.as_bytes()), FileGeometry::ContainsTriangles);
    let points = "ply\nformat ascii 1.0\nelement vertex 3\nproperty float x\nend_header\n";
    assert_eq!(read_file_geometry_type_ply(points.as_bytes()), FileGeometry::ContainsPoints);
    let no_index = "ply\nformat ascii 1.0\nelement vertex 3\nproperty float x\nelement face 2\nproperty uchar flags\nend_header\n";
    assert_eq!(read_file_geometry_type_ply(no_index.as_bytes()), FileGeometry::ContainsPoints);
    let index = "ply\nformat ascii 1.0\nelement vertex 3\nproperty float x\nelement face 2\nproperty list uchar uint vertex_index\nend_header\n";
    assert_eq!(read_file_geometry_type_ply(index.as_bytes()), FileGeometry::ContainsTriangles);
    let empty = "ply\nformat ascii 1.0\nelement vertex 0\nproperty float x\nelement face 0\nproperty list uchar uint vertex_index\nend_header\n";
    assert_eq!(read_file_geometry_type_ply(empty.as_bytes()), FileGeometry::ContentsUnknown);
    assert_eq!(read_file_geometry_type_ply(b"not a ply file\n"), FileGeometry::ContentsUnknown);
    assert_eq!(FileGeometry::ContainsTriangles.value(), 4);
    assert_eq!(FileGeometry::ContainsLines.value(), 2);
    assert_eq!(FileGeometry::ContainsPoints.value(), 1);
    assert_eq!(FileGeometry::ContentsUnknown.value(), 0);
}

#[test]
fn reading_plans() {
    let h = parse_header(MESH_HEADER.as_bytes()).unwrap();
    let l = vertex_layout(&h).expect("layout");
    assert_eq!(l.element, 0);
    assert_eq!(l.count, 4);
    assert!(!l.normals);
    assert!(l.colors);
    assert_eq!(
        l.targets,
        vec![PropTarget::Point(0), PropTarget::Point(1), PropTarget::Point(2), PropTarget::Color(0)]
    );
    assert_eq!(face_property(&h), Some((1, 0)));
    assert_eq!(find_prop(&h.elements[0], b"red"), Some(3));
    assert_eq!(find_prop(&h.elements[0], b"nx"), None);
    let no_x = "ply\nformat ascii 1.0\nelement vertex 3\nproperty float y\nend_header\n";
    assert!(vertex_layout(&parse_header(no_x.as_bytes()).unwrap()).is_none());
    let none = "ply\nformat ascii 1.0\nelement vertex 0\nproperty float x\nend_header\n";
    let h0 = parse_header(none.as_bytes()).unwrap();
    assert!(vertex_layout(&h0).is_none());
    assert_eq!(face_property(&h0), None);
    let full = "ply\nformat ascii 1.0\nelement vertex 1\nproperty double nz\nproperty double x\nproperty double nx\nproperty uchar blue\nproperty int quality\nend_header\n";
    let l = vertex_layout(&parse_header(full.as_bytes()).unwrap()).unwrap();
    assert!(l.normals && !l.colors);
    assert_eq!(
        l.targets,
        vec![PropTarget::Normal(2), PropTarget::Point(0), PropTarget::Normal(0), PropTarget::Color(2), PropTarget::Ignored]
    );
}

#[test]
fn writer_ascii_and_binary_values() {
    let mut w = PlyWriter::new(true, b"H".to_vec());
    w.write_uchar(255, false);
    w.write_uint(4294967295, false);
    w.write_uint(0, true);
    w.push_sep(false);
    assert_eq!(w.buf, b"H255 4294967295 0\n ".to_vec());
    let mut b = PlyWriter::new(false, Vec::new());
    b.write_uchar(7, true);
    b.write_uint(0x01020304, false);
    assert_eq!(b.buf, vec![7, 4, 3, 2, 1]);
    b.write_triangles(&[[0, 1, 2], [-1, 5, 300]]);
    assert_eq!(
        b.buf[5..].to_vec(),
        vec![3, 0, 0, 0, 0, 1, 0, 0, 0, 2, 0, 0, 0, 3, 255, 255, 255, 255, 5, 0, 0, 0, 44, 1, 0, 0]
    );
    let mut a = PlyWriter::new(true, Vec::new());
    a.write_triangles(&[[0, 1, 2], [10, 11, 12]]);
    assert_eq!(String::from_utf8(a.buf).unwrap(), "3 0 1 2\n3 10 11 12\n");
}

#[test]
fn written_headers() {
    let h = point_cloud_header_bytes(12, true, true, false);
    assert_eq!(
        String::from_utf8(h).unwrap(),
        "ply\nformat ascii 1.0\ncomment Created by tiny3d\nelement vertex 12\nproperty double x\nproperty double y\nproperty double z\nproperty double nx\nproperty double ny\nproperty double nz\nend_header\n"
    );
    let m = triangle_mesh_header_bytes(3, 1, false, false, true);
    assert_eq!(
        String::from_utf8(m).unwrap(),
        "ply\nformat binary_little_endian 1.0\ncomment Created by tiny3d\nelement vertex 3\nproperty double x\nproperty double y\nproperty double z\nproperty uchar red\nproperty uchar green\nproperty uchar blue\nelement face 1\nproperty list uchar uint vertex_indices\nend_header\n"
    );
}

#[test]
fn written_header_reads_back() {
    let h = point_cloud_header_bytes(1234567, false, false, true);
    let parsed = parse_header(&h).expect("header");
    assert!(!parsed.ascii && parsed.little_endian);
    assert_eq!(parsed.data_offset, h.len());
    assert_eq!(parsed.elements.len(), 1);
    assert_eq!(parsed.elements[0].count, 1234567);
    let l = vertex_layout(&parsed).unwrap();
    assert!(l.colors && !l.normals);
    let m = triangle_mesh_header_bytes(5, 9, true, true, true);
    let parsed = parse_header(&m).expect("header");
    assert_eq!(parsed.elements[1].count, 9);
    assert_eq!(face_property(&parsed), Some((1, 0)));
    assert_eq!(read_file_geometry_type_ply(&m), FileGeometry::ContainsTriangles);
}

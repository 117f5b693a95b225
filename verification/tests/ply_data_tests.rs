use tiny3d_core::ply::{parse_header, PlyHeader, PlyType};
use tiny3d_core::ply_data::{DataCursor, DataRead};

/// Walks the data section, answering every list length with the next entry
/// of `lengths`, and returns the reads in order.
fn walk(header: &PlyHeader, data_len: usize, lengths: &[usize]) -> Vec<DataRead> {
    let mut out = Vec::new();
    let mut next_len = 0;
    let mut cursor = DataCursor::start(header);
    loop {
        let r = cursor.next_read(header, data_len);
        out.push(r);
        match r {
            DataRead::Finished | DataRead::Truncated => return out,
            DataRead::Length { .. } => {
                let len = lengths[next_len];
                next_len += 1;
                cursor.after_length(header, data_len, len);
            }
            DataRead::Value { .. } => cursor.after_value(header, data_len),
        }
    }
}

fn binary_header(body: &str) -> (PlyHeader, usize) {
    let text = format!("ply\nformat binary_little_endian 1.0\n{}end_header\n", body);
    let h = parse_header(text.as_bytes()).expect("header");
    let off = text.len();
    assert_eq!(h.data_offset, off);
    (h, off)
}

#[test]
fn binary_walk_visits_values_in_order_with_offsets() {
    let (h, off) = binary_header(
        "element vertex 2\nproperty float x\nproperty uchar c\nelement face 1\nproperty list uchar int vertex_indices\n",
    );
    let data_len = off + 2 * 5 + 1 + 3 * 4;
    let reads = walk(&h, data_len, &[3]);
    let v = |e, i, p, index, len, ptype, o| DataRead::Value {
        element: e,
        instance: i,
        property: p,
        index,
        len,
        ptype,
        offset: off + o,
    };
    assert_eq!(
        reads,
        vec![
            v(0, 0, 0, 0, 0, PlyType::Float32, 0),
            v(0, 0, 1, 0, 0, PlyType::Uint8, 4),
            v(0, 1, 0, 0, 0, PlyType::Float32, 5),
            v(0, 1, 1, 0, 0, PlyType::Uint8, 9),
            DataRead::Length {
                element: 1,
                instance: 0,
                property: 0,
                length_type: PlyType::Uint8,
                offset: off + 10,
            },
            v(1, 0, 0, 1, 3, PlyType::Int32, 11),
            v(1, 0, 0, 2, 3, PlyType::Int32, 15),
            v(1, 0, 0, 3, 3, PlyType::Int32, 19),
            DataRead::Finished,
        ]
    );
}

#[test]
fn binary_walk_stops_where_the_data_ends() {
    let (h, off) = binary_header("element vertex 2\nproperty double x\n");
    let reads = walk(&h, off + 8 + 7, &[]);
    assert_eq!(reads.len(), 2);
    assert_eq!(reads[1], DataRead::Truncated);
    let reads = walk(&h, off + 16, &[]);
    assert_eq!(reads.last(), Some(&DataRead::Finished));
}

#[test]
fn binary_walk_checks_the_list_length_too() {
    let (h, off) = binary_header("element face 1\nproperty list ushort int vertex_indices\n");
    assert_eq!(walk(&h, off + 1, &[]), vec![DataRead::Truncated]);
}

#[test]
fn an_empty_list_moves_on_to_the_next_slot() {
    let (h, off) = binary_header(
        "element face 2\nproperty list uchar int vertex_indices\nproperty uchar flag\n",
    );
    let reads = walk(&h, off + 100, &[0, 1]);
    assert_eq!(
        reads[1],
        DataRead::Value {
            element: 0,
            instance: 0,
            property: 1,
            index: 0,
            len: 0,
            ptype: PlyType::Uint8,
            offset: off + 1,
        }
    );
    assert_eq!(reads.len(), 6);
    assert_eq!(reads[5], DataRead::Finished);
}

#[test]
fn elements_without_instances_or_properties_are_passed_over() {
    let (h, off) = binary_header(
        "element none 0\nproperty uchar a\nelement bare 1000000\nelement vertex 1\nproperty short s\n",
    );
    let reads = walk(&h, off + 2, &[]);
    assert_eq!(
        reads,
        vec![
            DataRead::Value {
                element: 2,
                instance: 0,
                property: 0,
                index: 0,
                len: 0,
                ptype: PlyType::Int16,
                offset: off,
            },
            DataRead::Finished,
        ]
    );
}

#[test]
fn ascii_walk_never_reports_truncation() {
    let text = "ply\nformat ascii 1.0\nelement vertex 2\nproperty float x\nend_header\n";
    let h = parse_header(text.as_bytes()).expect("header");
    let reads = walk(&h, 0, &[]);
    assert_eq!(reads.len(), 3);
    assert!(matches!(reads[0], DataRead::Value { offset, .. } if offset == text.len()));
    assert!(matches!(reads[1], DataRead::Value { offset, .. } if offset == text.len()));
    assert_eq!(reads[2], DataRead::Finished);
}

#[test]
fn an_empty_file_body_is_finished_at_once() {
    let (h, off) = binary_header("");
    assert_eq!(walk(&h, off, &[]), vec![DataRead::Finished]);
}

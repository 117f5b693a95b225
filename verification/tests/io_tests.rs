use tiny3d_core::io::{format_from_filename, ReadPointCloudOptions};

#[test]
fn format_comes_from_the_extension_when_auto() {
    assert_eq!(format_from_filename("cloud.PLY", "auto"), "ply");
    assert_eq!(format_from_filename("dir.v2/scan.XyZ", "auto"), "xyz");
    assert_eq!(format_from_filename("archive.tar.GZ", "auto"), "gz");
    assert_eq!(format_from_filename("noext", "auto"), "");
    assert_eq!(format_from_filename("trailing.", "auto"), "");
    assert_eq!(format_from_filename("cloud.ply", "xyz"), "xyz");
    assert_eq!(format_from_filename("cloud.ply", "AUTO"), "AUTO");
    assert_eq!(format_from_filename("x.ÄÖ", "auto"), "äö");
}

#[test]
fn read_options_hold_their_flags() {
    let o = ReadPointCloudOptions { remove_nan_points: true, remove_infinite_points: false };
    assert!(o.remove_nan_points && !o.remove_infinite_points);
}

use tiny3d_core::io::compact_kept;

#[test]
fn compaction_keeps_marked_items_in_order() {
    let mut v = vec![1, 2, 3, 4, 5];
    compact_kept(&mut v, &[true, false, true, false, true]);
    assert_eq!(v, vec![1, 3, 5]);
    let mut p = vec![[0.0f64, 1.0, 2.0], [f64::NAN, 0.0, 0.0], [3.0, 4.0, 5.0]];
    compact_kept(&mut p, &[true, false, true]);
    assert_eq!(p, vec![[0.0, 1.0, 2.0], [3.0, 4.0, 5.0]]);
    let mut none: Vec<u8> = vec![9, 9];
    compact_kept(&mut none, &[false, false]);
    assert!(none.is_empty());
}

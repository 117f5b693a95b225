use tiny3d_core::registration::{validate_correspondences, CorrespondenceError};

#[test]
fn correspondence_validation_rejects_negative_and_large_indices() {
    let source = 2;
    let target = 2;
    assert!(validate_correspondences(source, target, &[[-1, 0]])
        .unwrap_err()
        .message()
        .contains("negative source index"));
    assert!(validate_correspondences(source, target, &[[0, 2]])
        .unwrap_err()
        .message()
        .contains("target index 2 is out of bounds"));
}

#[test]
fn correspondence_validation_accepts_valid_indices() {
    let source = 2;
    let target = 3;
    assert!(validate_correspondences(source, target, &[[0, 2], [1, 1]]).is_ok());
}

#[test]
fn first_bad_correspondence_is_reported() {
    let e = validate_correspondences(3, 3, &[[0, 0], [5, -1], [-2, 0]]).unwrap_err();
    assert_eq!(e, CorrespondenceError::NegativeTarget { position: 1, value: -1 });
    assert_eq!(e.message(), "correspondence 1 has negative target index -1");
    let e = validate_correspondences(3, 3, &[[0, 0], [1, 1], [3, 0]]).unwrap_err();
    assert_eq!(e, CorrespondenceError::SourceOutOfBounds { position: 2, index: 3, len: 3 });
    assert_eq!(e.message(), "correspondence 2 source index 3 is out of bounds for 3 points");
    let e = validate_correspondences(1, 4, &[[-7, 9]]).unwrap_err();
    assert_eq!(e.message(), "correspondence 0 has negative source index -7");
    let e = validate_correspondences(1, 4, &[[0, 9]]).unwrap_err();
    assert_eq!(e.message(), "correspondence 0 target index 9 is out of bounds for 4 points");
    assert!(validate_correspondences(0, 0, &[]).is_ok());
}

use tiny3d_core::random::{Mt19937, UniformIntGenerator};
use tiny3d_core::registration::draw_ransac_sample;

fn corres10() -> Vec<[i32; 2]> {
    (0..10).map(|i: i32| [i, (i * 7) % 10]).collect()
}

#[test]
fn ransac_samples_follow_the_engine() {
    let corres = corres10();
    let g = UniformIntGenerator::new(0, corres.len() as i64 - 1);
    let mut e = Mt19937::new(42);
    let a = draw_ransac_sample(&corres, 3, 128, &g, &mut e).unwrap();
    assert_eq!(a, vec![[3, 1], [7, 9], [9, 3]]);
    let b = draw_ransac_sample(&corres, 3, 128, &g, &mut e).unwrap();
    // The repeated draw of 7 is skipped.
    assert_eq!(b, vec![[1, 7], [7, 9], [5, 5]]);
}

#[test]
fn ransac_sample_gives_up_after_the_attempts() {
    let same = vec![[1, 1]; 5];
    let g = UniformIntGenerator::new(0, 4);
    let mut e = Mt19937::new(3);
    assert_eq!(draw_ransac_sample(&same, 3, 5, &g, &mut e), None);
    // Six draws were made: the engine is where six draws leave it.
    let mut f = Mt19937::new(3);
    for _ in 0..6 {
        g.next(&mut f);
    }
    assert_eq!(e.next_u32(), f.next_u32());
    let mut z = Mt19937::new(3);
    assert_eq!(draw_ransac_sample(&same, 0, 5, &g, &mut z), Some(vec![]));
}

#[test]
fn ransac_replay_from_a_snapshot_repeats_the_samples() {
    let corres = corres10();
    let g = UniformIntGenerator::new(0, 9);
    let mut e = Mt19937::new(2024);
    let snap = e;
    let first: Vec<_> = (0..4).map(|_| draw_ransac_sample(&corres, 3, 128, &g, &mut e)).collect();
    let mut r = snap;
    let again: Vec<_> = (0..4).map(|_| draw_ransac_sample(&corres, 3, 128, &g, &mut r)).collect();
    assert_eq!(first, again);
    assert_eq!(e.next_u32(), r.next_u32());
}

use tiny3d_core::registration::select_correspondences;

#[test]
fn feature_matches_with_and_without_mutual_filter() {
    let fwd = [[0, 2], [1, -1], [2, 0], [3, 5], [4, 1]];
    let bwd = [[0, 2], [1, 3], [2, 0]];
    // Without the filter: the matches that name one of the three targets.
    assert_eq!(
        select_correspondences(&fwd, &[], 3, false, 0),
        vec![[0, 2], [2, 0], [4, 1]]
    );
    // Mutual pairs: 0 <-> 2 and 2 <-> 0; target 1 points back at 3, not 4.
    assert_eq!(select_correspondences(&fwd, &bwd, 3, true, 2), vec![[0, 2], [2, 0]]);
    // Too few mutual pairs: the unfiltered matches.
    assert_eq!(
        select_correspondences(&fwd, &bwd, 3, true, 3),
        vec![[0, 2], [2, 0], [4, 1]]
    );
    assert!(select_correspondences(&[], &[], 0, true, 0).is_empty());
}

use tiny3d_core::voxel::voxel_groups;

#[test]
fn points_grouped_in_voxel_map_order() {
    let keys: Vec<[i32; 3]> = (0..25).map(|i: i32| [i % 3, (i * 5) % 4 - 1, -(i % 2)]).collect();
    let groups = voxel_groups(&keys);
    assert_eq!(
        groups,
        vec![
            vec![8, 20], vec![6, 18], vec![11, 23], vec![5, 17], vec![9, 21], vec![7, 19],
            vec![4, 16], vec![3, 15], vec![2, 14], vec![10, 22], vec![1, 13], vec![0, 12, 24],
        ]
    );
}

#[test]
fn every_point_in_exactly_one_group() {
    let keys: Vec<[i32; 3]> = (0..300).map(|i: i32| [i % 7, (i / 7) % 5, i % 2]).collect();
    let groups = voxel_groups(&keys);
    let mut seen = vec![0; keys.len()];
    for g in groups.iter() {
        assert!(!g.is_empty());
        for w in g.windows(2) {
            assert!(w[0] < w[1]);
        }
        for &i in g.iter() {
            seen[i] += 1;
            assert_eq!(keys[i], keys[g[0]]);
        }
    }
    assert!(seen.iter().all(|&c| c == 1));
    assert!(voxel_groups(&[]).is_empty());
}

use tiny3d_core::stdsort::std_sort;

#[test]
fn sorts_integers() {
    let mut v = vec![5, 3, 9, 1, 1, 7, 0, -2, 4];
    std_sort(&mut v, |a: &i32, b: &i32| a < b);
    assert_eq!(v, vec![-2, 0, 1, 1, 3, 4, 5, 7, 9]);
}

#[test]
fn empty_and_single() {
    let mut v: Vec<i32> = Vec::new();
    std_sort(&mut v, |a: &i32, b: &i32| a < b);
    assert!(v.is_empty());
    let mut w = vec![42];
    std_sort(&mut w, |a: &i32, b: &i32| a < b);
    assert_eq!(w, vec![42]);
}

#[test]
fn short_ranges_keep_equal_elements_in_order() {
    // Sixteen elements or fewer only see the insertion sort.
    let mut v: Vec<(i32, usize)> = (0..16).map(|i| (((i * 5) % 3) as i32, i)).collect();
    std_sort(&mut v, |a: &(i32, usize), b: &(i32, usize)| a.0 < b.0);
    let firsts: Vec<i32> = v.iter().map(|p| p.0).collect();
    assert_eq!(firsts, vec![0, 0, 0, 0, 0, 0, 1, 1, 1, 1, 1, 2, 2, 2, 2, 2]);
    for w in v.windows(2) {
        if w[0].0 == w[1].0 {
            assert!(w[0].1 < w[1].1);
        }
    }
}

#[test]
fn tie_order_matches_introsort() {
    let mut v: Vec<(i32, usize)> = (0..50).map(|i| (((i * 37) % 7) as i32, i)).collect();
    std_sort(&mut v, |a: &(i32, usize), b: &(i32, usize)| a.0 < b.0);
    let idx: Vec<usize> = v.iter().map(|p| p.1).collect();
    assert_eq!(
        idx,
        vec![
            49, 42, 35, 7, 28, 0, 21, 14, 25, 46, 39, 32, 18, 11, 4, 1, 15, 43, 36, 22, 29, 8,
            12, 47, 40, 5, 33, 26, 19, 9, 30, 16, 2, 23, 44, 37, 13, 27, 48, 41, 20, 34, 6, 38, 3,
            17, 10, 45, 24, 31
        ]
    );
}

#[test]
fn tie_order_on_median_of_three_killer() {
    let kv: Vec<i32> = vec![
        1, 39, 3, 41, 5, 43, 7, 45, 9, 47, 11, 49, 13, 51, 15, 53, 17, 55, 19, 57, 21, 59, 23, 61,
        25, 63, 27, 65, 29, 67, 31, 69, 33, 71, 35, 73, 37, 75, 2, 4, 6, 8, 10, 12, 14, 16, 18, 20,
        22, 24, 26, 28, 30, 32, 34, 36, 38, 40, 42, 44, 46, 48, 50, 52, 54, 56, 58, 60, 62, 64, 66,
        68, 70, 72, 74, 76,
    ];
    let mut v: Vec<(i32, usize)> = kv.iter().enumerate().map(|(i, &x)| (x / 3, i)).collect();
    std_sort(&mut v, |a: &(i32, usize), b: &(i32, usize)| a.0 < b.0);
    let idx: Vec<usize> = v.iter().map(|p| p.1).collect();
    assert_eq!(
        idx,
        vec![
            0, 38, 39, 4, 2, 41, 40, 6, 8, 42, 10, 43, 12, 44, 14, 45, 16, 46, 18, 47, 48, 22, 20,
            49, 24, 50, 26, 51, 28, 52, 30, 53, 32, 54, 34, 56, 36, 55, 57, 1, 3, 59, 58, 5, 60, 7,
            9, 62, 61, 11, 63, 15, 13, 17, 64, 65, 19, 21, 66, 68, 67, 23, 25, 27, 69, 29, 70, 71,
            72, 31, 33, 74, 35, 73, 37, 75
        ]
    );
    // The same input compared on the whole value exhausts the depth limit
    // and finishes with the heap sort.
    let mut w = kv.clone();
    std_sort(&mut w, |a: &i32, b: &i32| a < b);
    assert_eq!(w, (1..=76).collect::<Vec<i32>>());
}

#[test]
fn sorts_descending_with_reversed_comparator() {
    let mut v: Vec<u64> = (0..300).map(|i| (i * 7919) % 1013).collect();
    let mut expected = v.clone();
    expected.sort_by(|a, b| b.cmp(a));
    std_sort(&mut v, |a: &u64, b: &u64| a > b);
    assert_eq!(v, expected);
}

#[test]
fn three_elements_keep_tied_order() {
    let mut v = vec![(1, 'a'), (0, 'b'), (1, 'c')];
    std_sort(&mut v, |x: &(i32, char), y: &(i32, char)| x.0 < y.0);
    assert_eq!(v, vec![(0, 'b'), (1, 'a'), (1, 'c')]);
}

use tiny3d_core::stdhash::{can_grow_from, has_prime_at_or_above, hash_vector3i, StdUnorderedMap};

#[test]
fn hash_of_voxel_keys() {
    assert_eq!(hash_vector3i(&[1, 2, 3]), 11093822460243);
    assert_eq!(hash_vector3i(&[-1, 0, 5]), 11093822418682);
    assert_eq!(hash_vector3i(&[0, 0, 0]), 11093822414574);
}

fn keys30() -> Vec<[i32; 3]> {
    (0..30).map(|i: i32| [i % 5, i / 5 - 2, (i * 7) % 3]).collect()
}

#[test]
fn iteration_order_follows_bucket_insertion() {
    let mut m: StdUnorderedMap<usize> = StdUnorderedMap::new();
    assert!(m.is_empty());
    for (i, k) in keys30().into_iter().enumerate() {
        assert!(m.insert(k, i));
    }
    assert_eq!(m.len(), 30);
    let expected: Vec<[i32; 3]> = vec![
        [4, 3, 2], [1, 0, 2], [2, -1, 1], [2, 0, 0], [1, -1, 0], [2, 1, 2], [3, 2, 2],
        [3, -1, 2], [0, -2, 0], [4, 2, 0], [0, 0, 1], [3, -2, 0], [4, -2, 1], [0, -1, 2],
        [4, 1, 1], [0, 3, 1], [4, -1, 0], [1, -2, 1], [2, -2, 2], [1, 1, 1], [2, 3, 0],
        [3, 0, 1], [1, 3, 2], [4, 0, 2], [3, 1, 0], [0, 1, 0], [0, 2, 2], [1, 2, 0],
        [2, 2, 1], [3, 3, 1],
    ];
    let mut it = m.iter();
    let mut got = Vec::new();
    while let Some((k, v)) = it.next() {
        assert_eq!(keys30()[*v], *k);
        got.push(*k);
    }
    assert_eq!(got, expected);
}

#[test]
fn duplicate_insert_is_refused() {
    let mut m: StdUnorderedMap<i32> = StdUnorderedMap::new();
    assert!(m.insert([1, 2, 3], 10));
    assert!(!m.insert([1, 2, 3], 20));
    assert_eq!(m.get(&[1, 2, 3]), Some(&10));
    assert_eq!(m.get(&[3, 2, 1]), None);
    assert_eq!(m.len(), 1);
}

#[test]
fn reserve_then_insert_order() {
    let mut m: StdUnorderedMap<usize> = StdUnorderedMap::new();
    m.reserve(100);
    for (i, k) in keys30().into_iter().take(12).enumerate() {
        m.insert(k, i);
    }
    let expected: Vec<[i32; 3]> = vec![
        [1, 0, 2], [0, 0, 1], [4, -1, 0], [3, -1, 2], [2, -1, 1], [1, -1, 0], [0, -1, 2],
        [4, -2, 1], [3, -2, 0], [2, -2, 2], [1, -2, 1], [0, -2, 0],
    ];
    let mut it = m.iter();
    let mut got = Vec::new();
    while let Some((k, _)) = it.next() {
        got.push(*k);
    }
    assert_eq!(got, expected);
}

#[test]
fn get_mut_or_insert_with_accumulates() {
    let mut m: StdUnorderedMap<i32> = StdUnorderedMap::new();
    for i in 0..100 {
        let k = [i % 4, 0, -(i % 3)];
        *m.get_mut_or_insert_with(&k, || 0) += 1;
    }
    assert_eq!(m.len(), 12);
    let mut total = 0;
    let mut it = m.iter();
    while let Some((_, v)) = it.next() {
        total += *v;
    }
    assert_eq!(total, 100);
    assert_eq!(m.get(&[0, 0, 0]), Some(&9));
}

#[test]
fn many_keys_all_found() {
    let mut m: StdUnorderedMap<i64> = StdUnorderedMap::new();
    for i in 0..2000i32 {
        m.insert([i, -i, i * 3], i as i64);
    }
    for i in 0..2000i32 {
        assert_eq!(m.get(&[i, -i, i * 3]), Some(&(i as i64)));
    }
    assert_eq!(m.get(&[1, 1, 1]), None);
}

#[test]
fn reserve_keeps_every_entry() {
    let mut m: StdUnorderedMap<usize> = StdUnorderedMap::new();
    for (i, k) in keys30().into_iter().enumerate() {
        m.insert(k, i);
    }
    m.reserve(5000);
    assert_eq!(m.len(), 30);
    for (i, k) in keys30().into_iter().enumerate() {
        assert_eq!(m.get(&k), Some(&i));
    }
    let mut count = 0;
    let mut it = m.iter();
    while let Some(_) = it.next() {
        count += 1;
    }
    assert_eq!(count, 30);
}

#[test]
fn insert_then_get_other_keys_unchanged() {
    let mut m: StdUnorderedMap<i32> = StdUnorderedMap::new();
    for i in 0..50 {
        m.insert([i, 0, 0], i * 10);
    }
    assert!(m.insert([7, 7, 7], -1));
    assert_eq!(m.get(&[7, 7, 7]), Some(&-1));
    for i in 0..50 {
        assert_eq!(m.get(&[i, 0, 0]), Some(&(i * 10)));
    }
}

#[test]
fn prime_search_past_the_table() {
    assert!(has_prime_at_or_above(21023162));
    assert!(has_prime_at_or_above(0));
    assert!(!has_prime_at_or_above(usize::MAX));
    assert!(can_grow_from(0));
    assert!(can_grow_from(20_000_000));
    assert!(!can_grow_from(usize::MAX / 2));
}

#[test]
fn lookups_after_a_sequence_of_calls() {
    let mut m: StdUnorderedMap<i32> = StdUnorderedMap::new();
    assert!(m.insert([1, 0, 0], 10));
    assert!(!m.insert([1, 0, 0], 11));
    *m.get_mut_or_insert_with(&[2, 0, 0], || 5) += 1;
    m.reserve(100);
    *m.get_mut_or_insert_with(&[1, 0, 0], || 0) += 7;
    assert!(m.insert([3, 0, 0], 30));
    assert_eq!(m.get(&[1, 0, 0]), Some(&17));
    assert_eq!(m.get(&[2, 0, 0]), Some(&6));
    assert_eq!(m.get(&[3, 0, 0]), Some(&30));
    assert_eq!(m.get(&[4, 0, 0]), None);
    assert_eq!(m.len(), 3);
}

use tiny3d_core::random::{restore_engine, seed, snapshot_engine, Mt19937, UniformIntGenerator};

#[test]
fn mt19937_default_seed_first_output() {
    let mut e = Mt19937::new(5489);
    assert_eq!(e.next_u32(), 3499211612);
}

#[test]
fn mt19937_ten_thousandth_output() {
    // The C++ standard fixes the 10000th output of a default-seeded mt19937.
    let mut e = Mt19937::new(5489);
    let mut x = 0;
    for _ in 0..10000 {
        x = e.next_u32();
    }
    assert_eq!(x, 4123659995);
}

#[test]
fn uniform_int_matches_libstdcxx() {
    let mut e = Mt19937::new(42);
    let g = UniformIntGenerator::new(0, 9);
    let got: Vec<i64> = (0..10).map(|_| g.next(&mut e)).collect();
    assert_eq!(got, vec![3, 7, 9, 1, 7, 7, 5, 5, 1, 4]);

    let mut e = Mt19937::new(7);
    let g = UniformIntGenerator::new(3, 1000000);
    let got: Vec<i64> = (0..5).map(|_| g.next(&mut e)).collect();
    assert_eq!(got, vec![76311, 227341, 779920, 318974, 438411]);
}

#[test]
fn uniform_int_single_value_range() {
    let mut e = Mt19937::new(1);
    let g = UniformIntGenerator::new(5, 5);
    for _ in 0..20 {
        assert_eq!(g.next(&mut e), 5);
    }
}

#[test]
fn seed_snapshot_restore() {
    let mut slot: Option<Mt19937> = None;
    seed(&mut slot, 5489);
    let snap = snapshot_engine(&mut slot, 0);
    let a = slot.as_mut().unwrap().next_u32();
    assert_eq!(a, 3499211612);
    restore_engine(&mut slot, snap);
    let b = slot.as_mut().unwrap().next_u32();
    assert_eq!(a, b);
}

#[test]
fn seed_reinterprets_negative_values() {
    let mut slot: Option<Mt19937> = None;
    seed(&mut slot, -1);
    let mut e = Mt19937::new(u32::MAX);
    assert_eq!(slot.as_mut().unwrap().next_u32(), e.next_u32());
}

#[test]
fn first_use_seeds_from_entropy() {
    let mut slot: Option<Mt19937> = None;
    let mut s = snapshot_engine(&mut slot, 5489);
    assert_eq!(s.next_u32(), 3499211612);
    // An engine already present is kept.
    let mut t = snapshot_engine(&mut slot, 1);
    assert_eq!(t.next_u32(), 3499211612);
}

#[test]
fn equal_seeds_give_equal_streams() {
    let mut a = Mt19937::new(99);
    let mut b = Mt19937::new(99);
    for _ in 0..1300 {
        assert_eq!(a.next_u32(), b.next_u32());
    }
}

#[test]
fn uniform_draws_stay_within_bounds() {
    let mut e = Mt19937::new(17);
    let g = UniformIntGenerator::new(10, 12);
    for _ in 0..2000 {
        let v = g.next(&mut e);
        assert!((10..=12).contains(&v));
    }
    let big = UniformIntGenerator::new(0, 4294967294);
    for _ in 0..100 {
        let v = big.next(&mut e);
        assert!((0..=4294967294).contains(&v));
    }
}

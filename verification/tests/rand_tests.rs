use library::misc::rand::{Pcg32, RangeBound};

#[test]
fn seeded_generator_outputs() {
    let mut rng = Pcg32::with_seed(1, 2);
    let got: Vec<u32> = (0..5).map(|_| rng.next_u32()).collect();
    assert_eq!(got, vec![1959605446, 493225406, 1014142496, 4050080752, 2719612090]);
}

#[test]
fn another_seed_and_stream() {
    let mut rng = Pcg32::with_seed(42, 54);
    assert_eq!(rng.next_u32(), 3647593345);
    assert_eq!(rng.next_u32(), 1287278550);
    assert_eq!(rng.next_u32(), 904287775);
}

#[test]
fn wide_outputs_join_narrow_ones() {
    let mut rng = Pcg32::with_seed(1, 2);
    assert_eq!(rng.next_u64(), 8416441304126719422);
    assert_eq!(rng.next_u64(), 4355708857853891568);
    let mut rng = Pcg32::with_seed(1, 2);
    let hi = rng.next_u32() as u64;
    let lo = rng.next_u32() as u64;
    assert_eq!((hi << 32) | lo, 8416441304126719422);
    let mut rng = Pcg32::with_seed(1, 2);
    assert_eq!(rng.next_u128(), 155255938748623851471380455898512577520);
}

#[test]
fn same_seed_same_sequence() {
    let mut a = Pcg32::with_seed(123456789, 987654321);
    let mut b = Pcg32::with_seed(123456789, 987654321);
    for _ in 0..100 {
        assert_eq!(a.next_u32(), b.next_u32());
    }
}

#[test]
fn stream_top_bit_is_ignored() {
    let mut a = Pcg32::with_seed(5, 17);
    let mut b = Pcg32::with_seed(5, 17 ^ (1u64 << 63));
    let xs: Vec<u32> = (0..3).map(|_| a.next_u32()).collect();
    let ys: Vec<u32> = (0..3).map(|_| b.next_u32()).collect();
    assert_eq!(xs, vec![1037320, 3638863473, 739970850]);
    assert_eq!(xs, ys);
}

#[test]
fn gen_range_half_open_u32() {
    let mut rng = Pcg32::with_seed(1, 2);
    let got: Vec<u32> = (0..10)
        .map(|_| rng.gen_range(RangeBound::Included(0u32), RangeBound::Excluded(2u32)))
        .collect();
    assert_eq!(got, vec![0, 0, 0, 0, 0, 1, 1, 1, 1, 1]);
}

#[test]
fn gen_range_closed_u64() {
    let mut rng = Pcg32::with_seed(7, 11);
    let got: Vec<u64> = (0..6)
        .map(|_| rng.gen_range(RangeBound::Included(10u64), RangeBound::Included(20u64)))
        .collect();
    assert_eq!(got, vec![10, 17, 15, 12, 19, 10]);
}

#[test]
fn gen_range_signed() {
    let mut rng = Pcg32::with_seed(7, 11);
    let got: Vec<i32> = (0..8)
        .map(|_| rng.gen_range(RangeBound::Included(-5i32), RangeBound::Excluded(5i32)))
        .collect();
    assert_eq!(got, vec![2, 3, -4, -2, 3, -3, 0, -5]);
    let mut rng = Pcg32::with_seed(3, 4);
    let got: Vec<i64> = (0..5)
        .map(|_| rng.gen_range(RangeBound::Included(-1000i64), RangeBound::Included(-990i64)))
        .collect();
    assert_eq!(got, vec![-992, -996, -999, -997, -997]);
}

#[test]
fn gen_range_excluded_start() {
    let mut rng = Pcg32::with_seed(5, 6);
    let got: Vec<u128> = (0..5)
        .map(|_| rng.gen_range(RangeBound::Excluded(0u128), RangeBound::Excluded(10u128)))
        .collect();
    assert_eq!(got, vec![2, 1, 5, 4, 9]);
    let mut rng = Pcg32::with_seed(5, 6);
    let got: Vec<i128> = (0..5)
        .map(|_| rng.gen_range(RangeBound::Included(-3i128), RangeBound::Excluded(3i128)))
        .collect();
    assert_eq!(got, vec![1, 0, 0, 2, -2]);
}

#[test]
fn gen_range_usize_and_rejection() {
    let mut rng = Pcg32::with_seed(9, 9);
    let got: Vec<usize> = (0..5)
        .map(|_| rng.gen_range(RangeBound::Included(100usize), RangeBound::Excluded(103usize)))
        .collect();
    assert_eq!(got, vec![100, 102, 101, 100, 100]);
    let mut rng = Pcg32::with_seed(9, 9);
    let got: Vec<u32> = (0..5)
        .map(|_| rng.gen_range(RangeBound::Included(0u32), RangeBound::Excluded(3_000_000_000u32)))
        .collect();
    assert_eq!(got, vec![1546966431, 405654096, 734833670, 2121657373, 25857843]);
}

#[test]
fn clock_seeded_generator_stays_in_range() {
    let mut rng = Pcg32::new().unwrap();
    for _ in 0..1000 {
        let x = rng.gen_range(RangeBound::Included(-3i32), RangeBound::Included(3i32));
        assert!(-3 <= x && x <= 3);
    }
}

#[test]
fn seeds_come_from_clock_nanoseconds() {
    assert_eq!(Pcg32::seed_from_nanos(None), None);
    assert_eq!(Pcg32::seed_from_nanos(Some(5)), Some(5));
    assert_eq!(Pcg32::seed_from_nanos(Some((1u128 << 64) + 7)), Some(7));
    assert_eq!(Pcg32::seed_from_nanos(Some(u128::MAX)), Some(u64::MAX));
}

#[test]
fn clock_reading_seeds_the_generator() {
    assert!(Pcg32::from_clock(None, 3).is_none());
    let mut a = Pcg32::from_clock(Some((1u128 << 64) + 42), 54).unwrap();
    let mut b = Pcg32::with_seed(42, 54);
    for _ in 0..5 {
        assert_eq!(a.next_u32(), b.next_u32());
    }
}

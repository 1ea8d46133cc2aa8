//! The seeded generator, its golden outputs, and the value generators.

use nanonbt::testkit::generate::{bytes, i64_edgy, len, mutate, string, u64_edgy};
use nanonbt::testkit::prop::{case_seed, DEFAULT_BASE};
use nanonbt::testkit::rng::{mix64, Pcg32, SplitMix64};

#[test]
fn splitmix64_golden() {
    let mut sm = SplitMix64::new(0);
    assert_eq!(sm.next_u64(), 0xe220_a839_7b1d_cdaf);
    assert_eq!(sm.next_u64(), 0x6e78_9e6a_a1b9_65f4);
    assert_eq!(sm.next_u64(), 0x06c4_5d18_8009_454f);
}

#[test]
fn pcg32_reference_golden() {
    // Output of the reference pcg32-demo with pcg32_srandom_r(42, 54).
    let mut rng = Pcg32::new(42, 54);
    let expected = [
        0xa15c_02b7_u32,
        0x7b47_f409,
        0xba1d_3330,
        0x83d2_f293,
        0xbfa4_784b,
        0xcbed_606e,
    ];
    for e in expected {
        assert_eq!(rng.next_u32(), e);
    }
}

#[test]
fn seed_from_u64_golden() {
    // Frozen: recorded seeds depend on this exact sequence.
    let mut rng = Pcg32::seed_from_u64(0x5eed);
    let got = [rng.next_u32(), rng.next_u32(), rng.next_u32()];
    let mut again = Pcg32::seed_from_u64(0x5eed);
    assert_eq!(got, [again.next_u32(), again.next_u32(), again.next_u32()]);
    assert_eq!(got, [2_851_957_292, 406_565_052, 3_973_736_297]);
}

#[test]
fn mix64_is_the_splitmix64_finaliser() {
    assert_eq!(mix64(0x9e37_79b9_7f4a_7c15), 0xe220_a839_7b1d_cdaf);
    assert_eq!(mix64(0), 0);
}

#[test]
fn next_u64_is_two_draws_high_first() {
    let mut a = Pcg32::new(42, 54);
    let mut b = Pcg32::new(42, 54);
    let hi = u64::from(b.next_u32());
    let lo = u64::from(b.next_u32());
    assert_eq!(a.next_u64(), (hi << 32) | lo);
    assert_eq!(a.next_u64(), 0xba1d_3330_83d2_f293);
}

#[test]
fn below_stays_below_the_bound() {
    let mut rng = Pcg32::seed_from_u64(7);
    for bound in [1_u32, 2, 3, 9, 95, 0xd7ff, u32::MAX] {
        for _ in 0..200 {
            assert!(rng.below(bound) < bound);
        }
    }
    for bound in [1_u64, 7, 256, u64::MAX] {
        for _ in 0..200 {
            assert!(rng.below_u64(bound) < bound);
        }
    }
    for len in [1_usize, 5, 1000] {
        for _ in 0..200 {
            assert!(rng.index(len) < len);
        }
    }
}

#[test]
fn a_zero_bound_draws_nothing() {
    let mut a = Pcg32::seed_from_u64(99);
    let mut b = a.clone();
    assert_eq!(a.below(0), 0);
    assert_eq!(a.below_u64(0), 0);
    assert_eq!(a.index(0), 0);
    assert_eq!(a.next_u32(), b.next_u32());
}

#[test]
fn ratio_with_a_zero_denominator_is_whether_num_is_positive() {
    let mut rng = Pcg32::seed_from_u64(1);
    assert!(rng.ratio(1, 0));
    assert!(!rng.ratio(0, 0));
    assert!(!rng.ratio(0, 4));
    assert!(rng.ratio(4, 4));
}

#[test]
fn bool_is_the_low_bit_of_a_draw() {
    let mut a = Pcg32::new(42, 54);
    let first = a.bool();
    assert!(first, "0xa15c02b7 is odd");
    assert!(a.bool(), "0x7b47f409 is odd");
    assert!(!a.bool(), "0xba1d3330 is even");
}

#[test]
fn fill_bytes_lays_out_draws_least_significant_first() {
    let mut a = Pcg32::new(42, 54);
    let mut buf = [0_u8; 6];
    a.fill_bytes(&mut buf);
    assert_eq!(buf, [0xb7, 0x02, 0x5c, 0xa1, 0x09, 0xf4]);
    let mut b = Pcg32::new(42, 54);
    b.next_u32();
    b.next_u32();
    assert_eq!(a.next_u32(), b.next_u32());
}

#[test]
fn pick_picks_one_of_the_items() {
    let mut rng = Pcg32::seed_from_u64(3);
    let items = [10, 20, 30];
    for _ in 0..50 {
        let got = rng.pick(&items).unwrap();
        assert!(items.contains(got));
    }
    let empty: [u8; 0] = [];
    let mut before = rng.clone();
    assert_eq!(rng.pick(&empty), None);
    assert_eq!(rng.next_u32(), before.next_u32());
}

#[test]
fn generators_repeat_for_a_seed() {
    let mut a = Pcg32::seed_from_u64(0x5eed);
    let mut b = Pcg32::seed_from_u64(0x5eed);
    for _ in 0..100 {
        assert_eq!(u64_edgy(&mut a), u64_edgy(&mut b));
        assert_eq!(i64_edgy(&mut a), i64_edgy(&mut b));
        assert_eq!(bytes(&mut a, 40), bytes(&mut b, 40));
        assert_eq!(string(&mut a, 12), string(&mut b, 12));
        assert_eq!(mutate(&mut a, b"valid"), mutate(&mut b, b"valid"));
    }
}

#[test]
fn lengths_stay_within_their_maximum() {
    let mut rng = Pcg32::seed_from_u64(11);
    for max in [0_usize, 1, 8, 9, 100] {
        for _ in 0..100 {
            assert!(len(&mut rng, max) <= max);
            assert!(bytes(&mut rng, max).len() <= max);
            assert!(string(&mut rng, max).chars().count() <= max);
        }
    }
}

#[test]
fn strings_mix_the_listed_characters_and_ascii() {
    let mut rng = Pcg32::seed_from_u64(12);
    for _ in 0..200 {
        for c in string(&mut rng, 20).chars() {
            let v = u32::from(c);
            assert!(
                (1..=0xd7ff).contains(&v)
                    || [0xe9, 0xdf, 0x65e5, 0x1_f980, 0].contains(&v),
                "{v:#x}"
            );
        }
    }
}

#[test]
fn mutations_are_small_or_fresh() {
    let mut rng = Pcg32::seed_from_u64(13);
    let valid = [1_u8, 2, 3, 4, 5, 6, 7, 8];
    for _ in 0..300 {
        let out = mutate(&mut rng, &valid);
        let differing = out.iter().zip(valid.iter()).filter(|(a, b)| a != b).count();
        let small = (out.len() == valid.len() && differing <= 1)
            || (out.len() < valid.len() && out[..] == valid[..out.len()])
            || out.len() == valid.len() + 1;
        assert!(small || out.len() <= 64);
    }
}

#[test]
fn case_seeds_mix_the_base_and_the_case() {
    assert_eq!(case_seed(DEFAULT_BASE, 0), mix64(DEFAULT_BASE ^ mix64(0)));
    assert_eq!(case_seed(5, 9), mix64(5 ^ mix64(9)));
    assert_ne!(case_seed(DEFAULT_BASE, 0), case_seed(DEFAULT_BASE, 1));
}

use perlin_noise::{strand_seed, SplitMix64};

#[test]
fn splitmix_matches_the_reference_stream() {
    let mut generator = SplitMix64::new(0);
    assert_eq!(generator.next_u64(), 0xE220_A839_7B1D_CDAF);
    assert_eq!(generator.next_u64(), 0x6E78_9E6A_A1B9_65F4);
    assert_eq!(generator.next_u64(), 0x06C4_5D18_8009_454F);

    let mut other = SplitMix64::new(1_234_567);
    assert_eq!(other.next_u64(), 0x599E_D017_FB08_FC85);
    assert_eq!(other.next_u64(), 0x2C73_F084_5854_0FA5);
}

#[test]
fn same_seed_gives_the_same_stream() {
    let mut a = SplitMix64::new(12345);
    let mut b = SplitMix64::new(12345);
    let mut c = SplitMix64::new(12346);
    let first: Vec<u64> = (0..16).map(|_| a.next_u64()).collect();
    let second: Vec<u64> = (0..16).map(|_| b.next_u64()).collect();
    let third: Vec<u64> = (0..16).map(|_| c.next_u64()).collect();
    assert_eq!(first, second);
    assert_ne!(first, third);
}

#[test]
fn strand_seeds_are_mixed_not_offset() {
    assert_eq!(strand_seed(7, 5), 0x5384_5412_7B09_6498);
    assert_eq!(strand_seed(0, 3), 3);
    assert_ne!(strand_seed(1, 0), strand_seed(0, 1));
}

#[test]
fn the_kth_draw_depends_only_on_seed_and_k() {
    const GOLDEN: u64 = 0x9E37_79B9_7F4A_7C15;
    let seed = 42u64;
    let mut generator = SplitMix64::new(seed);
    let draws: Vec<u64> = (0..6).map(|_| generator.next_u64()).collect();
    for (k, draw) in draws.iter().enumerate() {
        // A generator seeded k steps along gives the k-th draw first.
        let mut ahead = SplitMix64::new(seed.wrapping_add(GOLDEN.wrapping_mul(k as u64)));
        assert_eq!(ahead.next_u64(), *draw);
    }
}

#[test]
fn draws_do_not_repeat() {
    let mut generator = SplitMix64::new(u64::MAX - 3);
    let mut draws: Vec<u64> = (0..4096).map(|_| generator.next_u64()).collect();
    draws.sort_unstable();
    draws.dedup();
    assert_eq!(draws.len(), 4096);
}

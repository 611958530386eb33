use landsraad::Rng;

#[test]
fn splitmix_reference_values() {
    // SplitMix64 from seed 0: the published first outputs.
    let mut r = Rng::new(0);
    assert_eq!(r.next_u64(), 0xE220_A839_7B1D_CDAF);
    assert_eq!(r.next_u64(), 0x6E78_9E6A_A1B9_65F4);
}

#[test]
fn below_stays_in_range_and_is_reproducible() {
    let mut a = Rng::new(42);
    let mut b = Rng::new(42);
    for n in 1..50usize {
        let x = a.below(n);
        assert!(x < n);
        assert_eq!(x, b.below(n));
    }
}

#[test]
fn the_kth_draw_has_the_closed_form() {
    let seed = 0xDEAD_BEEF_u64;
    let mut r = Rng::new(seed);
    for k in 1..=20u64 {
        let mut z = seed.wrapping_add(k.wrapping_mul(0x9E37_79B9_7F4A_7C15));
        z = (z ^ (z >> 30)).wrapping_mul(0xBF58_476D_1CE4_E5B9);
        z = (z ^ (z >> 27)).wrapping_mul(0x94D0_49BB_1331_11EB);
        assert_eq!(r.next_u64(), z ^ (z >> 31), "draw {k}");
    }
}

use iiac_perf::dither::{Dither, XorShift64, DITHER_SPAN, FALLBACK_SEED};

#[test]
fn a_clock_reading_seeds_odd_and_a_missing_one_seeds_the_fallback() {
    assert_eq!((Dither::seeded(Some(0)).0).0, 1);
    assert_eq!((Dither::seeded(Some(1234)).0).0, 1235);
    assert_eq!((Dither::seeded(Some(1235)).0).0, 1235);
    assert_eq!((Dither::seeded(None).0).0, FALLBACK_SEED);
}

#[test]
fn the_generator_steps_as_xorshift64_star() {
    let mut g = XorShift64(1);
    assert_eq!(g.next(), 5_180_492_295_206_395_165);
    assert_eq!(g.0, 0x200_0001);
    assert_eq!(g.next(), 12_380_297_144_915_551_517);
    assert_eq!(g.0, 0x4_0040_0080_2801);
    assert_eq!(g.next(), 13_389_498_078_930_870_103);
}

#[test]
fn the_raw_stream_and_the_spin_draw_from_one_state() {
    let mut d = Dither::seeded(Some(0));
    assert_eq!(d.rand_u64(), 5_180_492_295_206_395_165);
    let mut e = Dither::seeded(Some(0));
    assert_eq!(e.spin(), 29);
    assert_eq!((e.0).0, (d.0).0);
    let mut f = Dither::seeded(None);
    assert_eq!(f.spin(), 58);
}

#[test]
fn spins_stay_under_the_span_and_the_state_never_reaches_zero() {
    let mut d = Dither::new();
    assert_eq!((d.0).0 % 2, 1);
    for _ in 0..10_000 {
        assert!(d.spin() < DITHER_SPAN);
        assert_ne!((d.0).0, 0);
    }
    let e = Dither::default();
    assert_eq!((e.0).0 % 2, 1);
}

use slammer::dsp::{Drift, SatMode, TubeWarmth};

#[test]
fn sat_mode_from_u8() {
    assert_eq!(SatMode::from_u8(0), SatMode::Off);
    assert_eq!(SatMode::from_u8(1), SatMode::SoftClip);
    assert_eq!(SatMode::from_u8(2), SatMode::Diode);
    assert_eq!(SatMode::from_u8(3), SatMode::Tape);
    assert_eq!(SatMode::from_u8(4), SatMode::Off);
    assert_eq!(SatMode::from_u8(255), SatMode::Off);
    for m in [SatMode::Off, SatMode::SoftClip, SatMode::Diode, SatMode::Tape] {
        assert_eq!(SatMode::from_u8(m.to_u8()), m);
    }
}

#[test]
fn drift_sequence_is_the_lcg_from_the_fixed_seed() {
    let mut d = Drift::new();
    let a = d.next_state();
    assert_eq!(a, 0xCAFEBABEu32.wrapping_mul(1664525).wrapping_add(1013904223));
    let b = d.next_state();
    assert_eq!(b, a.wrapping_mul(1664525).wrapping_add(1013904223));
    assert_ne!(a, b);
    let mut e = Drift::new();
    assert_eq!(e.next_state(), a);
}

#[test]
fn tube_is_constructible() {
    let _t = TubeWarmth::new();
}

#[test]
fn two_drifts_agree_draw_by_draw() {
    let mut d1 = Drift::new();
    let first: Vec<u32> = (0..5).map(|_| d1.next_state()).collect();
    let mut d2 = Drift::new();
    let second: Vec<u32> = (0..5).map(|_| d2.next_state()).collect();
    assert_eq!(first, second);
    // Later draws keep agreeing too.
    for _ in 0..100 {
        assert_eq!(d1.next_state(), d2.next_state());
    }
}

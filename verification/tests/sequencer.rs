use slammer::sequencer::{Sequencer, StepClock, DEFAULT_STEP_BITS, STEPS};

#[test]
fn flam_state_default_off() {
    let seq = Sequencer::default();
    for i in 0..STEPS {
        assert_eq!(seq.flam_state(i), 0);
    }
}

#[test]
fn cycle_flam_state_walks_four_states() {
    let mut seq = Sequencer::default();
    seq.set_step(0, true);
    assert_eq!(seq.flam_state(0), 0);
    seq.cycle_flam_state(0);
    assert_eq!(seq.flam_state(0), 1);
    seq.cycle_flam_state(0);
    assert_eq!(seq.flam_state(0), 2);
    seq.cycle_flam_state(0);
    assert_eq!(seq.flam_state(0), 3);
    seq.cycle_flam_state(0);
    assert_eq!(seq.flam_state(0), 0);
}

#[test]
fn turning_step_off_clears_flam_state() {
    let mut seq = Sequencer::default();
    seq.set_step(5, true);
    seq.cycle_flam_state(5);
    seq.cycle_flam_state(5);
    assert_eq!(seq.flam_state(5), 2);
    seq.set_step(5, false);
    assert_eq!(seq.flam_state(5), 0);
}

#[test]
fn cycle_on_inactive_step_is_noop() {
    let mut seq = Sequencer::default();
    seq.set_step(7, false);
    seq.cycle_flam_state(7);
    assert_eq!(seq.flam_state(7), 0);
}

#[test]
fn default_pattern_is_four_on_the_floor() {
    let seq = Sequencer::default();
    for i in 0..STEPS {
        assert_eq!(seq.is_step_on(i), i % 4 == 0);
    }
    assert_eq!(seq.persist_bits(), DEFAULT_STEP_BITS);
    assert_eq!(seq.bpm_milli(), 120_000);
    assert!(!seq.is_running());
}

#[test]
fn persist_bits_mirror_edits() {
    let mut seq = Sequencer::new(0);
    seq.toggle_step(3);
    assert_eq!(seq.persist_bits(), 1 << 3);
    seq.set_step(15, true);
    assert_eq!(seq.persist_bits(), (1 << 3) | (1 << 15));
    seq.toggle_step(3);
    assert_eq!(seq.persist_bits(), 1 << 15);
    assert!(!seq.is_step_on(3));
    assert!(seq.is_step_on(15));
    seq.restore_from_persist(0b101);
    assert!(seq.is_step_on(0) && !seq.is_step_on(1) && seq.is_step_on(2));
    assert_eq!(seq.persist_bits(), 0b101);
}

#[test]
fn toggle_keeps_flam_state() {
    let mut seq = Sequencer::new(1);
    seq.cycle_flam_state(0);
    seq.toggle_step(0);
    assert_eq!(seq.flam_state(0), 1);
}

#[test]
fn bpm_is_clamped() {
    let mut seq = Sequencer::default();
    seq.set_bpm_milli(10_000);
    assert_eq!(seq.bpm_milli(), 40_000);
    seq.set_bpm_milli(300_000);
    assert_eq!(seq.bpm_milli(), 240_000);
    seq.set_bpm_milli(128_500);
    assert_eq!(seq.bpm_milli(), 128_500);
}

#[test]
fn running_toggles() {
    let mut seq = Sequencer::default();
    seq.toggle_running();
    assert!(seq.is_running());
    seq.toggle_running();
    assert!(!seq.is_running());
}

#[test]
fn clock_fires_first_step_on_start_then_each_step_length() {
    let mut seq = Sequencer::default();
    let mut clock = StepClock::new();
    seq.toggle_running();
    let fired = clock.advance_standalone(&mut seq, 512, 6000);
    assert_eq!(fired, vec![0]);
    assert_eq!(seq.current(), 0);
    let mut all = Vec::new();
    for _ in 0..47 {
        all.extend(clock.advance_standalone(&mut seq, 512, 6000));
    }
    // 48 * 512 = 24576 samples = 4 steps (24000) + 576.
    assert_eq!(all, vec![4]);
    assert_eq!(seq.current(), 4);
    assert_eq!(clock.sample_counter(), 576);
}

#[test]
fn clock_is_block_size_independent() {
    let mut seq_a = Sequencer::new(0xFFFF);
    let mut seq_b = Sequencer::new(0xFFFF);
    seq_a.toggle_running();
    seq_b.toggle_running();
    let mut a = StepClock::new();
    let mut b = StepClock::new();
    let mut fired_a = a.advance_standalone(&mut seq_a, 0, 100);
    let mut fired_b = b.advance_standalone(&mut seq_b, 0, 100);
    fired_a.extend(a.advance_standalone(&mut seq_a, 1234, 100));
    for _ in 0..1234 {
        fired_b.extend(b.advance_standalone(&mut seq_b, 1, 100));
    }
    assert_eq!(fired_a, fired_b);
    assert_eq!(a.sample_counter(), b.sample_counter());
    assert_eq!(seq_a.current(), seq_b.current());
}

#[test]
fn stopped_clock_clears_counter_and_fires_nothing() {
    let mut seq = Sequencer::default();
    let mut clock = StepClock::new();
    seq.toggle_running();
    clock.advance_standalone(&mut seq, 100, 6000);
    seq.toggle_running();
    assert!(clock.advance_standalone(&mut seq, 100_000, 6000).is_empty());
    assert_eq!(clock.sample_counter(), 0);
}

#[test]
fn host_step_fires_once_per_new_step() {
    let mut seq = Sequencer::default();
    let mut clock = StepClock::new();
    assert_eq!(clock.follow_host(&mut seq, true, Some(4)), Some(4));
    assert_eq!(clock.follow_host(&mut seq, true, Some(4)), None);
    assert_eq!(clock.follow_host(&mut seq, true, Some(5)), None);
    assert_eq!(seq.current(), 5);
    assert_eq!(clock.follow_host(&mut seq, false, Some(5)), None);
    assert_eq!(clock.follow_host(&mut seq, true, Some(5)), None);
    assert_eq!(clock.follow_host(&mut seq, true, Some(8)), Some(8));
}

use slammer::sequencer::wrap_host_step;

#[test]
fn host_step_wraps_into_pattern() {
    assert_eq!(wrap_host_step(0), 0);
    assert_eq!(wrap_host_step(17), 1);
    assert_eq!(wrap_host_step(-1), 15);
    assert_eq!(wrap_host_step(-16), 0);
    assert_eq!(wrap_host_step(i64::MIN), 0);
}

#[test]
fn toggling_a_step_twice_restores_the_pattern() {
    let mut seq = Sequencer::new(DEFAULT_STEP_BITS);
    seq.cycle_flam_state(4);
    for i in 0..STEPS {
        let on = seq.is_step_on(i);
        let flam = seq.flam_state(i);
        seq.toggle_step(i);
        assert_eq!(seq.is_step_on(i), !on);
        assert_eq!(seq.persist_bits() ^ DEFAULT_STEP_BITS, 1u16 << i);
        seq.toggle_step(i);
        assert_eq!(seq.is_step_on(i), on);
        assert_eq!(seq.flam_state(i), flam);
        assert_eq!(seq.persist_bits(), DEFAULT_STEP_BITS);
    }
}

#[test]
fn set_step_is_idempotent() {
    let mut seq = Sequencer::new(0);
    seq.set_step(3, true);
    assert!(seq.is_step_on(3));
    assert_eq!(seq.persist_bits(), 1 << 3);
    seq.set_step(3, true);
    assert!(seq.is_step_on(3));
    assert_eq!(seq.persist_bits(), 1 << 3);
    seq.cycle_flam_state(3);
    seq.set_step(3, false);
    assert!(!seq.is_step_on(3));
    assert_eq!(seq.flam_state(3), 0);
    assert_eq!(seq.persist_bits(), 0);
}

#[test]
fn a_stopped_transport_latches_host_sync() {
    let mut clock = StepClock::new();
    let mut seq = Sequencer::default();
    assert!(!seq.is_transport_probed());
    // A standalone backend always reports playing.
    assert!(!clock.observe_transport(&mut seq, true));
    assert!(seq.is_transport_probed());
    assert!(!seq.is_host_synced());
    assert!(!seq.is_running_effective()); // follows the (off) run flag
    seq.toggle_running();
    assert!(!clock.observe_transport(&mut seq, true));
    assert!(seq.is_running_effective());
    // A host stops its transport once: host-synced from then on.
    assert!(clock.observe_transport(&mut seq, false));
    assert!(seq.is_host_synced());
    assert!(!seq.is_running_effective());
    assert!(clock.observe_transport(&mut seq, true));
    assert!(seq.is_host_synced());
    assert!(seq.is_running_effective());
}

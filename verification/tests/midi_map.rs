use slammer::midi_map::{
    decode_relative_steps, detect_cc_encoding_raw, CcEncoding, MidiMapState, MidiSource, OMNI,
};

fn raw(value_normalized: f32) -> i32 {
    (value_normalized * 127.0).round() as i32
}

#[test]
fn lookup_prefers_exact_channel_over_omni() {
    let mut s = MidiMapState::default();
    s.bind(OMNI, MidiSource::Cc(74), "decay", CcEncoding::Absolute);
    s.bind(0, MidiSource::Cc(74), "drift", CcEncoding::Absolute);
    assert_eq!(
        s.lookup(0, MidiSource::Cc(74)),
        Some(("drift", CcEncoding::Absolute))
    );
    assert_eq!(
        s.lookup(5, MidiSource::Cc(74)),
        Some(("decay", CcEncoding::Absolute))
    );
    assert_eq!(s.lookup(0, MidiSource::Cc(99)), None);
}

#[test]
fn cc_and_noteon_are_distinct_sources() {
    let mut s = MidiMapState::default();
    s.bind(0, MidiSource::Cc(60), "decay", CcEncoding::Absolute);
    s.bind(0, MidiSource::NoteOn(60), "drift", CcEncoding::Absolute);
    assert_eq!(s.bindings.len(), 2);
    assert_eq!(
        s.lookup(0, MidiSource::Cc(60)),
        Some(("decay", CcEncoding::Absolute))
    );
    assert_eq!(
        s.lookup(0, MidiSource::NoteOn(60)),
        Some(("drift", CcEncoding::Absolute))
    );
}

#[test]
fn bind_replaces_existing_binding_for_same_param() {
    let mut s = MidiMapState::default();
    s.bind(0, MidiSource::Cc(74), "decay", CcEncoding::Absolute);
    s.bind(0, MidiSource::Cc(75), "decay", CcEncoding::BinaryOffset);
    assert_eq!(s.bindings.len(), 1);
    assert_eq!(s.bindings[0].source, MidiSource::Cc(75));
    assert_eq!(s.bindings[0].encoding, CcEncoding::BinaryOffset);
}

#[test]
fn bind_replaces_existing_binding_for_same_source() {
    let mut s = MidiMapState::default();
    s.bind(0, MidiSource::Cc(74), "decay", CcEncoding::Absolute);
    s.bind(0, MidiSource::Cc(74), "drift", CcEncoding::Absolute);
    assert_eq!(s.bindings.len(), 1);
    assert_eq!(s.bindings[0].param_id, "drift");
}

#[test]
fn forget_returns_removed_source() {
    let mut s = MidiMapState::default();
    s.bind(0, MidiSource::NoteOn(36), "decay", CcEncoding::Absolute);
    s.bind(0, MidiSource::Cc(75), "drift", CcEncoding::Absolute);
    assert_eq!(s.forget("decay"), Some((0, MidiSource::NoteOn(36))));
    assert_eq!(s.forget("decay"), None);
    assert_eq!(s.bindings.len(), 1);
    assert_eq!(s.bindings[0].param_id, "drift");
}

#[test]
fn binding_for_param_round_trip() {
    let mut s = MidiMapState::default();
    s.bind(7, MidiSource::Cc(42), "decay", CcEncoding::Centered);
    assert_eq!(
        s.binding_for_param("decay"),
        Some((7, MidiSource::Cc(42), CcEncoding::Centered))
    );
    assert_eq!(s.binding_for_param("nope"), None);
}

#[test]
fn set_encoding_replaces_value() {
    let mut s = MidiMapState::default();
    s.bind(0, MidiSource::Cc(74), "decay", CcEncoding::Absolute);
    assert_eq!(
        s.set_encoding("decay", CcEncoding::BinaryOffset),
        Some(CcEncoding::BinaryOffset)
    );
    assert_eq!(s.bindings[0].encoding, CcEncoding::BinaryOffset);
    assert_eq!(s.set_encoding("nope", CcEncoding::Absolute), None);
}

#[test]
fn decode_binary_offset() {
    let bo = CcEncoding::BinaryOffset;
    assert_eq!(decode_relative_steps(raw(1.0 / 127.0), bo), 1);
    assert_eq!(decode_relative_steps(raw(127.0 / 127.0), bo), -1);
    assert_eq!(decode_relative_steps(raw(63.0 / 127.0), bo), 63);
    assert_eq!(decode_relative_steps(raw(65.0 / 127.0), bo), -63);
    assert_eq!(decode_relative_steps(raw(64.0 / 127.0), bo), 0);
    assert_eq!(decode_relative_steps(raw(0.0), bo), 0);
}

#[test]
fn decode_centered() {
    let c = CcEncoding::Centered;
    assert_eq!(decode_relative_steps(raw(64.0 / 127.0), c), 0);
    assert_eq!(decode_relative_steps(raw(65.0 / 127.0), c), 1);
    assert_eq!(decode_relative_steps(raw(63.0 / 127.0), c), -1);
    assert_eq!(decode_relative_steps(raw(79.0 / 127.0), c), 15);
    assert_eq!(decode_relative_steps(raw(49.0 / 127.0), c), -15);
}

#[test]
fn detect_cc_encoding_picks_right_kind() {
    assert_eq!(detect_cc_encoding_raw(raw(1.0 / 127.0)), CcEncoding::BinaryOffset);
    assert_eq!(detect_cc_encoding_raw(raw(127.0 / 127.0)), CcEncoding::BinaryOffset);
    assert_eq!(detect_cc_encoding_raw(raw(63.0 / 127.0)), CcEncoding::Centered);
    assert_eq!(detect_cc_encoding_raw(raw(65.0 / 127.0)), CcEncoding::Centered);
    assert_eq!(detect_cc_encoding_raw(raw(0.5)), CcEncoding::Absolute);
    assert_eq!(detect_cc_encoding_raw(raw(0.0)), CcEncoding::Absolute);
}

#[test]
fn absolute_encoding_decodes_to_no_movement() {
    assert_eq!(decode_relative_steps(5, CcEncoding::Absolute), 0);
    assert_eq!(decode_relative_steps(127, CcEncoding::Absolute), 0);
}

#[test]
fn detected_relative_values_read_as_one_step() {
    for r in [1, 127, 63, 65] {
        let e = detect_cc_encoding_raw(r);
        let d = decode_relative_steps(r, e);
        assert!(d == 1 || d == -1, "raw {r} decoded to {d}");
    }
}

#[test]
fn table_stays_well_formed_after_mixed_edits() {
    let mut s = MidiMapState::default();
    s.bind(0, MidiSource::Cc(1), "a", CcEncoding::Absolute);
    s.bind(1, MidiSource::Cc(1), "b", CcEncoding::Absolute);
    s.bind(0, MidiSource::Cc(1), "c", CcEncoding::Centered);
    s.bind(2, MidiSource::NoteOn(3), "b", CcEncoding::Absolute);
    assert_eq!(s.bindings.len(), 2);
    let mut ids: Vec<&str> = s.bindings.iter().map(|b| b.param_id.as_str()).collect();
    ids.sort();
    assert_eq!(ids, vec!["b", "c"]);
    assert_eq!(s.lookup(2, MidiSource::NoteOn(3)), Some(("b", CcEncoding::Absolute)));
    assert_eq!(s.lookup(1, MidiSource::Cc(1)), None);
}

#[test]
fn forget_moves_last_binding_into_the_gap() {
    let mut s = MidiMapState::default();
    s.bind(0, MidiSource::Cc(1), "a", CcEncoding::Absolute);
    s.bind(0, MidiSource::Cc(2), "b", CcEncoding::Absolute);
    s.bind(0, MidiSource::Cc(3), "c", CcEncoding::Absolute);
    assert_eq!(s.forget("a"), Some((0, MidiSource::Cc(1))));
    assert_eq!(s.bindings[0].param_id, "c");
    assert_eq!(s.bindings[1].param_id, "b");
    assert_eq!(s.binding_for_param("a"), None);
}

#[test]
fn bound_notes_lists_note_bindings_in_order() {
    let mut s = MidiMapState::default();
    s.bind(0, MidiSource::NoteOn(36), "decay", CcEncoding::Absolute);
    s.bind(3, MidiSource::Cc(74), "drift", CcEncoding::Absolute);
    s.bind(OMNI, MidiSource::NoteOn(60), "master_vol", CcEncoding::Absolute);
    assert_eq!(s.bound_notes(), vec![(0, 36), (OMNI, 60)]);
}

#[test]
fn default_encoding_is_absolute() {
    assert_eq!(CcEncoding::default(), CcEncoding::Absolute);
}

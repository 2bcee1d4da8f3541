use slammer::midi_map::{CcEncoding, MidiMapState, MidiSource, NoteBlockMap, OMNI};

#[test]
fn note_block_map_round_trip() {
    let mut map = NoteBlockMap::new();
    assert!(!map.is_blocked(0, 36));
    map.block(0, 36);
    assert!(map.is_blocked(0, 36));
    assert!(!map.is_blocked(1, 36));
    map.unblock(0, 36);
    assert!(!map.is_blocked(0, 36));
}

#[test]
fn note_block_map_omni_covers_all_channels() {
    let mut map = NoteBlockMap::new();
    map.block(OMNI, 60);
    for ch in 0..16u8 {
        assert!(map.is_blocked(ch, 60));
    }
    map.unblock(OMNI, 60);
    for ch in 0..16u8 {
        assert!(!map.is_blocked(ch, 60));
    }
}

#[test]
fn note_block_map_rebuild_from_state() {
    let mut s = MidiMapState::default();
    s.bind(0, MidiSource::NoteOn(36), "decay", CcEncoding::Absolute);
    s.bind(3, MidiSource::Cc(74), "drift", CcEncoding::Absolute);
    s.bind(OMNI, MidiSource::NoteOn(60), "master_vol", CcEncoding::Absolute);

    let mut map = NoteBlockMap::new();
    map.rebuild_from(&s);

    assert!(map.is_blocked(0, 36));
    assert!(!map.is_blocked(0, 74));
    for ch in 0..16u8 {
        assert!(map.is_blocked(ch, 60));
    }
}

#[test]
fn note_block_map_ignores_out_of_range() {
    let mut map = NoteBlockMap::new();
    map.block(99, 200);
    assert!(!map.is_blocked(99, 200));
}

#[test]
fn rebuild_clears_previous_blocks() {
    let mut map = NoteBlockMap::new();
    map.block(5, 5);
    map.block(OMNI, 127);
    map.rebuild_from(&MidiMapState::default());
    assert!(!map.is_blocked(5, 5));
    for ch in 0..16u8 {
        assert!(!map.is_blocked(ch, 127));
    }
}

#[test]
fn blocked_notes_agree_with_lookup() {
    let mut s = MidiMapState::default();
    s.bind(2, MidiSource::NoteOn(40), "a", CcEncoding::Absolute);
    s.bind(OMNI, MidiSource::NoteOn(41), "b", CcEncoding::Absolute);
    s.bind(2, MidiSource::Cc(42), "c", CcEncoding::Absolute);
    let mut map = NoteBlockMap::new();
    map.rebuild_from(&s);
    for ch in 0..16u8 {
        for note in 38..44u8 {
            assert_eq!(
                map.is_blocked(ch, note),
                s.lookup(ch, MidiSource::NoteOn(note)).is_some(),
                "ch {ch} note {note}"
            );
        }
    }
}

#[test]
fn neighbouring_bits_are_independent() {
    let mut map = NoteBlockMap::new();
    map.block(0, 63);
    map.block(0, 64);
    map.unblock(0, 63);
    assert!(!map.is_blocked(0, 63));
    assert!(map.is_blocked(0, 64));
    map.block(15, 127);
    assert!(map.is_blocked(15, 127));
    assert!(!map.is_blocked(15, 126));
}

#[test]
fn out_of_range_pairs_are_never_blocked() {
    let mut map = NoteBlockMap::new();
    map.block(OMNI, 128);
    map.block(OMNI, 60);
    for ch in 0..16u8 {
        assert!(!map.is_blocked(ch, 128));
        assert!(map.is_blocked(ch, 60));
    }
    assert!(!map.is_blocked(OMNI, 60));
    assert!(!map.is_blocked(200, 60));
}

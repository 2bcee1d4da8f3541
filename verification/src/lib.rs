//! Verified core of the Slammer kick-drum synthesizer: MIDI-learn binding
//! tables, the note-block bitmap, the step sequencer's pattern state, the
//! sequencer's hit scheduling ring, bounce file naming and the AIFF encoder,
//! and preset-name handling.

pub mod aiff;
pub mod dsp;
pub mod export;
pub mod midi_map;
pub mod note_block;
pub mod pending;
pub mod presets;
pub mod sequencer;
pub mod text;

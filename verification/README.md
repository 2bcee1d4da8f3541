# slammer

The control logic of the Slammer kick-drum synthesizer, written in Verus and
proved against its contracts.

## Layout

- `src/` — the verified library:
  - `midi_map` — the MIDI-learn binding table (per-channel or OMNI bindings
    of CCs and note-ons to parameter ids), relative-encoder decoding and
    encoding detection;
  - `note_block` — the bitmap of `(channel, note)` pairs that a note-on
    binding claims, so a learned pad does not also fire the drum;
  - `sequencer` — the 16-step pattern with per-step flam states, its
    persisted bit-mask, and the step clock for standalone and host-synced
    play;
  - `pending` — the ring of scheduled (flam) hits;
  - `export` — bounce formats, suggested file names and the remembered
    export state;
  - `aiff` — channel interleaving and the AIFF encoder;
  - `presets` — preset file names, hidden factory presets and the merged
    preset list;
  - `dsp` — the integer state of the drift generator and the saturation
    mode selector;
  - `text` — decimal rendering.
- `tests/` — tests of the library, run against the compiled crate.
- `app/` — the host side, not verified: the floating-point signal chain,
  rendering, file and JSON I/O, data directories and logging.

Laws of the library (round trips, invariants kept by every operation, what
one call undoes of another) stand in `src/` as public proof functions whose
names begin with `law_`.

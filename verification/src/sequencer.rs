//! 16-step pattern sequencer state and its clock.
//!
//! [`Sequencer`] holds the pattern (steps on/off and per-step flam state)
//! together with the transport flags shown by the UI. The persisted pattern
//! bitmask always mirrors the live steps: bit `i` is set exactly when step
//! `i` is on. [`StepClock`] decides, per audio block, which steps fire.

use vstd::prelude::*;

verus! {

/// Number of steps in the pattern.
pub const STEPS: usize = 16;

/// Default pattern: four on the floor (steps 0, 4, 8, 12).
pub const DEFAULT_STEP_BITS: u16 = 0x1111;

/// Default tempo in milli-BPM.
pub const DEFAULT_BPM_MILLI: u32 = 120000;

/// Slowest standalone tempo in milli-BPM.
pub const MIN_BPM_MILLI: u32 = 40000;

/// Fastest standalone tempo in milli-BPM.
pub const MAX_BPM_MILLI: u32 = 240000;

/// Bit `i` of a 16-bit pattern mask.
pub open spec fn mask_bit(bits: u16, i: int) -> bool {
    (bits >> (i as u16)) & 1u16 == 1u16
}

pub struct Sequencer {
    steps: [bool; 16],
    /// Per-step flam state: 0 = single hit, 1 = flam (2 hits), 2 = ruff (3),
    /// 3 = roll (4).
    flams: [u8; 16],
    running: bool,
    bpm_milli: u32,
    current_step: usize,
    host_synced: bool,
    display_bpm_milli: u32,
    running_effective: bool,
    transport_probed: bool,
    /// The persisted pattern mask.
    persist_bits: u16,
}

proof fn lemma_mask_bits(bits: u16, i: u16, j: u16)
    requires
        i < 16,
        j < 16,
    ensures
        mask_bit(bits ^ (1u16 << i), j as int) == (if j == i {
            !mask_bit(bits, j as int)
        } else {
            mask_bit(bits, j as int)
        }),
        mask_bit(bits | (1u16 << i), j as int) == (j == i || mask_bit(bits, j as int)),
        mask_bit(bits & !(1u16 << i), j as int) == (j != i && mask_bit(bits, j as int)),
        ((bits >> j) & 1u16 != 0u16) == mask_bit(bits, j as int),
{
    assert((((bits ^ (1u16 << i)) >> j) & 1u16 == 1u16) == (if j == i {
        !((bits >> j) & 1u16 == 1u16)
    } else {
        (bits >> j) & 1u16 == 1u16
    })) by (bit_vector)
        requires
            i < 16,
            j < 16,
    ;
    assert((((bits | (1u16 << i)) >> j) & 1u16 == 1u16) == (j == i || (bits >> j) & 1u16 == 1u16))
        by (bit_vector)
        requires
            i < 16,
            j < 16,
    ;
    assert((((bits & !(1u16 << i)) >> j) & 1u16 == 1u16) == (j != i && (bits >> j) & 1u16 == 1u16))
        by (bit_vector)
        requires
            i < 16,
            j < 16,
    ;
    assert(((bits >> j) & 1u16 != 0u16) == ((bits >> j) & 1u16 == 1u16)) by (bit_vector);
}

/// The whole observable state of a [`Sequencer`].
pub struct SequencerState {
    pub steps: Seq<bool>,
    pub flams: Seq<u8>,
    pub running: bool,
    pub bpm_milli: u32,
    pub current_step: usize,
    pub host_synced: bool,
    pub display_bpm_milli: u32,
    pub running_effective: bool,
    pub transport_probed: bool,
    pub persist_bits: u16,
}

/// `s` with the flam state of step `idx` advanced to the next of its four
/// states when the step is on; unchanged when it is off.
pub open spec fn flam_cycled(s: SequencerState, idx: int) -> SequencerState {
    SequencerState {
        flams: if s.steps[idx] {
            s.flams.update(idx, ((s.flams[idx] + 1) % 4) as u8)
        } else {
            s.flams
        },
        ..s
    }
}

/// Cycling the flam state of a step four times comes back to where it
/// started (single, flam, ruff, roll, single).
pub proof fn law_four_flam_cycles_restore(s: SequencerState, idx: int)
    requires
        0 <= idx < 16,
        s.flams.len() == 16,
        s.flams[idx] <= 3,
    ensures
        flam_cycled(flam_cycled(flam_cycled(flam_cycled(s, idx), idx), idx), idx) == s,
{
    let r = flam_cycled(flam_cycled(flam_cycled(flam_cycled(s, idx), idx), idx), idx);
    assert(r.flams =~= s.flams);
}

/// Law: cycling the flam of step `idx` touches that step's flam state
/// alone. When the step is on, its flam state moves on by one through
/// single, flam, ruff, roll and back to single; when it is off nothing
/// changes. The flam state of every other step, all steps on/off, the
/// persisted mask, the tempo and the transport flags are kept.
pub proof fn law_cycle_flam_touches_only_its_step(s: SequencerState, idx: int, j: int)
    requires
        0 <= idx < 16,
        0 <= j < 16,
        s.flams.len() == 16,
        s.steps.len() == 16,
    ensures
        j != idx ==> flam_cycled(s, idx).flams[j] == s.flams[j],
        s.steps[idx] && s.flams[idx] < 3 ==> flam_cycled(s, idx).flams[idx] == s.flams[idx] + 1,
        s.steps[idx] && s.flams[idx] == 3 ==> flam_cycled(s, idx).flams[idx] == 0,
        !s.steps[idx] ==> flam_cycled(s, idx).flams[idx] == s.flams[idx],
        flam_cycled(s, idx).flams.len() == 16,
        flam_cycled(s, idx).steps == s.steps,
        flam_cycled(s, idx).persist_bits == s.persist_bits,
        flam_cycled(s, idx).running == s.running,
        flam_cycled(s, idx).bpm_milli == s.bpm_milli,
        flam_cycled(s, idx).current_step == s.current_step,
        flam_cycled(s, idx).host_synced == s.host_synced,
        flam_cycled(s, idx).running_effective == s.running_effective,
{
}

/// `s` with step `idx` flipped, in the live steps and in the persisted mask;
/// everything else, the step's flam state included, is kept.
pub open spec fn toggled(s: SequencerState, idx: int) -> SequencerState {
    SequencerState {
        steps: s.steps.update(idx, !s.steps[idx]),
        persist_bits: s.persist_bits ^ (1u16 << (idx as u16)),
        ..s
    }
}

/// Toggling the same step twice gives back the state it started from.
pub proof fn law_toggle_twice_restores(s: SequencerState, idx: int)
    requires
        0 <= idx < 16,
        s.steps.len() == 16,
    ensures
        toggled(toggled(s, idx), idx) == s,
{
    let b = s.persist_bits;
    let i = idx as u16;
    assert((b ^ (1u16 << i)) ^ (1u16 << i) == b) by (bit_vector);
    assert(toggled(toggled(s, idx), idx).steps =~= s.steps);
}

impl View for Sequencer {
    type V = SequencerState;

    closed spec fn view(&self) -> SequencerState {
        SequencerState {
            steps: self.steps@,
            flams: self.flams@,
            running: self.running,
            bpm_milli: self.bpm_milli,
            current_step: self.current_step,
            host_synced: self.host_synced,
            display_bpm_milli: self.display_bpm_milli,
            running_effective: self.running_effective,
            transport_probed: self.transport_probed,
            persist_bits: self.persist_bits,
        }
    }
}

impl Sequencer {
    #[verifier::type_invariant]
    spec fn inv(&self) -> bool {
        &&& forall|i: int| 0 <= i < 16 ==> #[trigger] self.steps@[i] == mask_bit(self.persist_bits, i)
        &&& forall|i: int| 0 <= i < 16 ==> #[trigger] self.flams@[i] <= 3
    }

    /// Steps on/off.
    pub open spec fn steps_view(&self) -> Seq<bool> {
        self@.steps
    }

    /// Per-step flam states.
    pub open spec fn flams_view(&self) -> Seq<u8> {
        self@.flams
    }

    /// The persisted pattern mask.
    pub open spec fn persist_view(&self) -> u16 {
        self@.persist_bits
    }

    pub open spec fn running_view(&self) -> bool {
        self@.running
    }

    pub open spec fn bpm_view(&self) -> u32 {
        self@.bpm_milli
    }

    pub open spec fn display_bpm_view(&self) -> u32 {
        self@.display_bpm_milli
    }

    pub open spec fn current_view(&self) -> usize {
        self@.current_step
    }

    pub open spec fn host_synced_view(&self) -> bool {
        self@.host_synced
    }

    pub open spec fn running_effective_view(&self) -> bool {
        self@.running_effective
    }

    pub open spec fn transport_probed_view(&self) -> bool {
        self@.transport_probed
    }

    /// Every sequencer holds exactly 16 steps and 16 flam states.
    pub proof fn lemma_view_lengths(&self)
        ensures
            self.steps_view().len() == 16,
            self.flams_view().len() == 16,
    {
    }
}

impl Sequencer {
    /// A sequencer whose pattern comes from the persisted mask
    /// `initial_bits`; flams off, stopped, at the default tempo.
    pub fn new(initial_bits: u16) -> (r: Self)
        ensures
            r.steps_view().len() == 16,
            r.flams_view().len() == 16,
            r.persist_view() == initial_bits,
            forall|i: int| 0 <= i < 16 ==> #[trigger] r.steps_view()[i] == mask_bit(initial_bits, i),
            forall|i: int| 0 <= i < 16 ==> #[trigger] r.flams_view()[i] == 0,
            !r.running_view(),
            r.bpm_view() == DEFAULT_BPM_MILLI,
            r.display_bpm_view() == DEFAULT_BPM_MILLI,
            r.current_view() == 0,
            !r.host_synced_view(),
            !r.running_effective_view(),
            !r.transport_probed_view(),
    {
        let mut steps = [false; 16];
        let mut i: usize = 0;
        while i < STEPS
            invariant
                i <= 16,
                forall|j: int| 0 <= j < i ==> #[trigger] steps@[j] == mask_bit(initial_bits, j),
            decreases 16 - i,
        {
            proof {
                lemma_mask_bits(initial_bits, 0, i as u16);
            }
            steps[i] = (initial_bits >> (i as u16)) & 1u16 != 0;
            i = i + 1;
        }
        Sequencer {
            steps,
            flams: [0u8; 16],
            running: false,
            bpm_milli: DEFAULT_BPM_MILLI,
            current_step: 0,
            host_synced: false,
            display_bpm_milli: DEFAULT_BPM_MILLI,
            running_effective: false,
            transport_probed: false,
            persist_bits: initial_bits,
        }
    }

    /// Reload the steps from a persisted mask (after the host restored its
    /// saved state). Flam states are kept.
    pub fn restore_from_persist(&mut self, bits: u16)
        ensures
            final(self)@ == (SequencerState {
                steps: Seq::new(16, |i: int| mask_bit(bits, i)),
                persist_bits: bits,
                ..old(self)@
            }),
    {
        let fresh = Sequencer::new(bits);
        let flams = self.flams;
        proof {
            use_type_invariant(&*self);
            use_type_invariant(&fresh);
        }
        *self = Sequencer {
            steps: fresh.steps,
            flams,
            running: self.running,
            bpm_milli: self.bpm_milli,
            current_step: self.current_step,
            host_synced: self.host_synced,
            display_bpm_milli: self.display_bpm_milli,
            running_effective: self.running_effective,
            transport_probed: self.transport_probed,
            persist_bits: bits,
        };
        assert(self.steps@ =~= Seq::new(16, |i: int| mask_bit(bits, i)));
    }

    /// The persisted pattern mask: bit `i` is set exactly when step `i` is on.
    pub fn persist_bits(&self) -> (r: u16)
        ensures
            r == self.persist_view(),
            forall|i: int| 0 <= i < 16 ==> mask_bit(r, i) == #[trigger] self.steps_view()[i],
    {
        proof {
            use_type_invariant(self);
        }
        self.persist_bits
    }

    pub fn is_step_on(&self, idx: usize) -> (r: bool)
        requires
            idx < 16,
        ensures
            r == self.steps_view()[idx as int],
    {
        self.steps[idx]
    }

    /// Flam state of a step: 0 single, 1 flam, 2 ruff, 3 roll.
    pub fn flam_state(&self, idx: usize) -> (r: u8)
        requires
            idx < 16,
        ensures
            r == self.flams_view()[idx as int],
            r <= 3,
    {
        proof {
            use_type_invariant(self);
        }
        self.flams[idx]
    }

    /// Advance a step's flam state Off → Flam → Ruff → Roll → Off; no-op on
    /// a step that is off.
    pub fn cycle_flam_state(&mut self, idx: usize)
        requires
            idx < 16,
        ensures
            final(self)@ == flam_cycled(old(self)@, idx as int),
    {
        proof {
            use_type_invariant(&*self);
        }
        if !self.steps[idx] {
            return;
        }
        let f = self.flams[idx];
        let next: u8 = (f + 1) & 3u8;
        assert(((f + 1) as u8) & 3u8 == ((f + 1) % 4) as u8) by (bit_vector)
            requires
                f <= 3,
        ;
        self.flams[idx] = next;
    }

    /// Flip a step on/off, mirroring the change into the persisted mask.
    /// Its flam state is kept.
    pub fn toggle_step(&mut self, idx: usize)
        requires
            idx < 16,
        ensures
            final(self)@ == toggled(old(self)@, idx as int),
    {
        proof {
            use_type_invariant(&*self);
        }
        let on = !self.steps[idx];
        let bits = self.persist_bits ^ (1u16 << (idx as u16));
        let mut steps = self.steps;
        steps[idx] = on;
        proof {
            assert forall|j: int| 0 <= j < 16 implies #[trigger] steps@[j] == mask_bit(bits, j) by {
                lemma_mask_bits(self.persist_bits, idx as u16, j as u16);
            }
        }
        *self = Sequencer { steps, persist_bits: bits, ..*self };
    }

    /// Set a step explicitly (drag-painting is idempotent). Turning a step
    /// off also resets its flam state.
    pub fn set_step(&mut self, idx: usize, on: bool)
        requires
            idx < 16,
        ensures
            final(self)@ == (SequencerState {
                steps: old(self).steps_view().update(idx as int, on),
                flams: if on {
                    old(self).flams_view()
                } else {
                    old(self).flams_view().update(idx as int, 0)
                },
                persist_bits: if on {
                    old(self).persist_view() | (1u16 << (idx as u16))
                } else {
                    old(self).persist_view() & !(1u16 << (idx as u16))
                },
                ..old(self)@
            }),
    {
        proof {
            use_type_invariant(&*self);
        }
        let bits = if on {
            self.persist_bits | (1u16 << (idx as u16))
        } else {
            self.persist_bits & !(1u16 << (idx as u16))
        };
        let mut steps = self.steps;
        steps[idx] = on;
        let mut flams = self.flams;
        if !on {
            flams[idx] = 0;
        }
        proof {
            assert forall|j: int| 0 <= j < 16 implies #[trigger] steps@[j] == mask_bit(bits, j) by {
                lemma_mask_bits(self.persist_bits, idx as u16, j as u16);
            }
        }
        *self = Sequencer { steps, flams, persist_bits: bits, ..*self };
    }

    /// Standalone tempo in milli-BPM.
    pub fn bpm_milli(&self) -> (r: u32)
        ensures
            r == self.bpm_view(),
    {
        self.bpm_milli
    }

    /// Set the standalone tempo, clamped to 40..=240 BPM.
    pub fn set_bpm_milli(&mut self, milli: u32)
        ensures
            final(self)@ == (SequencerState {
                bpm_milli: if milli < MIN_BPM_MILLI {
                    MIN_BPM_MILLI
                } else if milli > MAX_BPM_MILLI {
                    MAX_BPM_MILLI
                } else {
                    milli
                },
                ..old(self)@
            }),
    {
        let v = if milli < MIN_BPM_MILLI {
            MIN_BPM_MILLI
        } else if milli > MAX_BPM_MILLI {
            MAX_BPM_MILLI
        } else {
            milli
        };
        proof {
            use_type_invariant(&*self);
        }
        self.bpm_milli = v;
    }

    /// Tempo the UI shows (host tempo when synced), in milli-BPM.
    pub fn display_bpm_milli(&self) -> (r: u32)
        ensures
            r == self.display_bpm_view(),
    {
        self.display_bpm_milli
    }

    pub fn set_display_bpm_milli(&mut self, milli: u32)
        ensures
            final(self)@ == (SequencerState { display_bpm_milli: milli, ..old(self)@ }),
    {
        proof {
            use_type_invariant(&*self);
        }
        self.display_bpm_milli = milli;
    }

    pub fn is_host_synced(&self) -> (r: bool)
        ensures
            r == self.host_synced_view(),
    {
        self.host_synced
    }

    pub fn is_running_effective(&self) -> (r: bool)
        ensures
            r == self.running_effective_view(),
    {
        self.running_effective
    }

    pub fn is_transport_probed(&self) -> (r: bool)
        ensures
            r == self.transport_probed_view(),
    {
        self.transport_probed
    }

    /// Record what the audio side learnt about the transport this block.
    pub fn set_transport(&mut self, host_synced: bool, running_effective: bool)
        ensures
            final(self)@ == (SequencerState {
                host_synced,
                running_effective,
                transport_probed: true,
                ..old(self)@
            }),
    {
        proof {
            use_type_invariant(&*self);
        }
        self.host_synced = host_synced;
        self.running_effective = running_effective;
        self.transport_probed = true;
    }

    /// The step last played (playhead).
    pub fn current(&self) -> (r: usize)
        ensures
            r == self.current_view(),
    {
        self.current_step
    }

    pub fn set_current(&mut self, step: usize)
        requires
            step < 16,
        ensures
            final(self)@ == (SequencerState { current_step: step, ..old(self)@ }),
    {
        proof {
            use_type_invariant(&*self);
        }
        self.current_step = step;
    }

    pub fn is_running(&self) -> (r: bool)
        ensures
            r == self.running_view(),
    {
        self.running
    }

    /// Start or stop the standalone sequencer.
    pub fn toggle_running(&mut self)
        ensures
            final(self)@ == (SequencerState { running: !old(self).running_view(), ..old(self)@ }),
    {
        proof {
            use_type_invariant(&*self);
        }
        self.running = !self.running;
    }
}

impl Default for Sequencer {
    fn default() -> (r: Self)
        ensures
            r.steps_view().len() == 16,
            r.flams_view().len() == 16,
            r.persist_view() == DEFAULT_STEP_BITS,
            forall|i: int| 0 <= i < 16 ==> #[trigger] r.steps_view()[i] == mask_bit(DEFAULT_STEP_BITS, i),
            forall|i: int| 0 <= i < 16 ==> #[trigger] r.flams_view()[i] == 0,
            !r.running_view(),
            r.bpm_view() == DEFAULT_BPM_MILLI,
            r.display_bpm_view() == DEFAULT_BPM_MILLI,
            r.current_view() == 0,
            !r.host_synced_view(),
            !r.running_effective_view(),
            !r.transport_probed_view(),
    {
        Sequencer::new(DEFAULT_STEP_BITS)
    }
}

/// Steps reached when advancing `k` steps from `start` (wrapping at 16),
/// in order, keeping only those that are on.
pub open spec fn fired_steps(steps: Seq<bool>, start: int, k: nat) -> Seq<usize>
    decreases k,
{
    if k == 0 {
        Seq::empty()
    } else {
        let st = (start + k) % 16;
        let rest = fired_steps(steps, start, (k - 1) as nat);
        if steps[st] {
            rest.push(st as usize)
        } else {
            rest
        }
    }
}

/// The sequencer's clock: the free-running standalone step counter and the
/// last step seen from a host transport.
pub struct StepClock {
    sample_counter: u64,
    current_step: usize,
    running_prev: bool,
    last_host_step: Option<usize>,
    host_ever_stopped: bool,
}

impl StepClock {
    #[verifier::type_invariant]
    spec fn inv(&self) -> bool {
        self.current_step < 16
    }

    /// Samples accumulated toward the next step.
    pub closed spec fn counter_view(&self) -> u64 {
        self.sample_counter
    }

    /// The standalone step last played.
    pub closed spec fn step_view(&self) -> usize {
        self.current_step
    }

    /// Whether the standalone sequencer was running at the last block.
    pub closed spec fn running_prev_view(&self) -> bool {
        self.running_prev
    }

    /// The host step last acted on.
    pub closed spec fn host_step_view(&self) -> Option<usize> {
        self.last_host_step
    }

    /// Whether a transport has ever been seen stopped: only a real host
    /// stops its transport, so from then on the clock follows the host.
    pub closed spec fn ever_stopped_view(&self) -> bool {
        self.host_ever_stopped
    }

    /// A stopped clock at step 0 that has not yet seen a stopped transport.
    pub fn new() -> (r: Self)
        ensures
            r.counter_view() == 0,
            r.step_view() == 0,
            !r.running_prev_view(),
            r.host_step_view() is None,
            !r.ever_stopped_view(),
    {
        StepClock {
            sample_counter: 0,
            current_step: 0,
            running_prev: false,
            last_host_step: None,
            host_ever_stopped: false,
        }
    }

    /// Read the transport at the start of a block and decide the mode.
    /// Standalone backends always report a playing transport, while a host
    /// toggles it, so the first stopped transport latches host-synced mode
    /// for good. Returns whether the block runs host-synced, and records on
    /// the sequencer that the transport was probed, whether it is
    /// host-synced, and whether it effectively runs: as the host transport
    /// plays when host-synced, else as the user's run flag.
    pub fn observe_transport(&mut self, seq: &mut Sequencer, playing: bool) -> (is_daw: bool)
        ensures
            is_daw == (old(self).ever_stopped_view() || !playing),
            final(self).ever_stopped_view() == is_daw,
            final(self).counter_view() == old(self).counter_view(),
            final(self).step_view() == old(self).step_view(),
            final(self).running_prev_view() == old(self).running_prev_view(),
            final(self).host_step_view() == old(self).host_step_view(),
            final(seq)@ == (SequencerState {
                host_synced: is_daw,
                running_effective: if is_daw {
                    playing
                } else {
                    old(seq).running_view()
                },
                transport_probed: true,
                ..old(seq)@
            }),
    {
        proof {
            use_type_invariant(&*self);
        }
        if !playing {
            self.host_ever_stopped = true;
        }
        let is_daw = self.host_ever_stopped;
        let running_effective = if is_daw {
            playing
        } else {
            seq.is_running()
        };
        seq.set_transport(is_daw, running_effective);
        is_daw
    }

    /// Samples accumulated toward the next step.
    pub fn sample_counter(&self) -> (r: u64)
        ensures
            r == self.counter_view(),
    {
        self.sample_counter
    }

    /// Standalone mode, one audio block of `num_samples` samples with steps
    /// `samples_per_step` long. On the rising edge of the run flag the
    /// pattern restarts at step 0, which fires at once when it is on. While
    /// running, every full step length accumulated advances one step
    /// (wrapping at 16) and fires it when it is on; when stopped the counter
    /// is cleared. Returns the steps that fire, in order, and moves the
    /// sequencer's playhead with the clock.
    pub fn advance_standalone(&mut self, seq: &mut Sequencer, num_samples: u64, samples_per_step: u64) -> (r: Vec<usize>)
        requires
            samples_per_step > 0,
            old(self).counter_view() + num_samples <= u64::MAX,
        ensures
            ({
                let running = old(seq).running_view();
                let rising = running && !old(self).running_prev_view();
                let c0: int = if rising { 0 } else { old(self).counter_view() as int };
                let s0: int = if rising { 0 } else { old(self).step_view() as int };
                let steps = old(seq).steps_view();
                let pre: Seq<usize> = if rising && steps[0] { seq![0usize] } else { Seq::empty() };
                let total = c0 + num_samples;
                let k = total / samples_per_step as int;
                &&& final(self).running_prev_view() == running
                &&& final(self).host_step_view() == old(self).host_step_view()
                &&& final(self).ever_stopped_view() == old(self).ever_stopped_view()
                &&& if running {
                    &&& final(self).counter_view() == total % samples_per_step as int
                    &&& final(self).step_view() == (s0 + k) % 16
                    &&& r@ == pre + fired_steps(steps, s0, k as nat)
                    &&& final(seq)@ == (SequencerState {
                        current_step: if rising || k > 0 {
                            final(self).step_view()
                        } else {
                            old(seq).current_view()
                        },
                        ..old(seq)@
                    })
                } else {
                    &&& final(self).counter_view() == 0
                    &&& final(self).step_view() == old(self).step_view()
                    &&& r@.len() == 0
                    &&& final(seq)@ == old(seq)@
                }
            }),
    {
        proof {
            use_type_invariant(&*self);
        }
        let running = seq.is_running();
        let mut fired: Vec<usize> = Vec::new();
        let rising = running && !self.running_prev;
        if rising {
            self.sample_counter = 0;
            self.current_step = 0;
            seq.set_current(0);
            if seq.is_step_on(0) {
                fired.push(0);
            }
        }
        self.running_prev = running;
        if !running {
            self.sample_counter = 0;
            return fired;
        }
        let ghost steps = seq.steps_view();
        let ghost pre = fired@;
        let ghost s0 = self.current_step as int;
        let ghost total = self.sample_counter + num_samples;
        let ghost seq_current0 = seq.current_view();
        let mut counter: u64 = self.sample_counter + num_samples;
        let mut current: usize = self.current_step;
        let ghost mut adv: int = 0;
        assert(counter + adv * samples_per_step == total) by (nonlinear_arith)
            requires
                counter == total,
                adv == 0,
        ;
        while counter >= samples_per_step
            invariant
                samples_per_step > 0,
                0 <= adv,
                counter + adv * samples_per_step == total,
                current < 16,
                current == (s0 + adv) % 16,
                0 <= s0 < 16,
                fired@ == pre + fired_steps(steps, s0, adv as nat),
                seq.steps_view() == steps,
                seq@ == (SequencerState { current_step: seq.current_view(), ..old(seq)@ }),
                adv > 0 ==> seq.current_view() == current,
                adv == 0 ==> seq.current_view() == seq_current0,
            decreases counter,
        {
            counter = counter - samples_per_step;
            current = (current + 1) % 16;
            proof {
                assert(counter + (adv + 1) * samples_per_step == total) by (nonlinear_arith)
                    requires
                        counter + samples_per_step + adv * samples_per_step == total,
                ;
                adv = adv + 1;
            }
            seq.set_current(current);
            if seq.is_step_on(current) {
                fired.push(current);
            }
            assert(fired@ =~= pre + fired_steps(steps, s0, adv as nat));
        }
        proof {
            vstd::arithmetic::div_mod::lemma_fundamental_div_mod_converse(
                total,
                samples_per_step as int,
                adv,
                counter as int,
            );
        }
        self.sample_counter = counter;
        self.current_step = current;
        fired
    }

    /// Host-synced mode: follow the host transport. While it plays at host
    /// step `host_step`, a step not acted on just before becomes the
    /// playhead and is returned when it is on (to be fired). A stopped
    /// transport forgets the last host step. Either way the standalone
    /// counter is cleared.
    pub fn follow_host(&mut self, seq: &mut Sequencer, playing: bool, host_step: Option<usize>) -> (r: Option<usize>)
        requires
            host_step matches Some(s) ==> s < 16,
        ensures
            final(self).counter_view() == 0,
            final(self).step_view() == old(self).step_view(),
            final(self).running_prev_view() == old(self).running_prev_view(),
            final(self).ever_stopped_view() == old(self).ever_stopped_view(),
            final(seq)@ == (SequencerState { current_step: final(seq).current_view(), ..old(seq)@ }),
            !playing ==> final(self).host_step_view() is None && r is None && final(seq).current_view() == old(seq).current_view(),
            playing ==> match host_step {
                Some(s) => if old(self).host_step_view() != Some(s) {
                    &&& final(self).host_step_view() == Some(s)
                    &&& final(seq).current_view() == s
                    &&& r == if old(seq).steps_view()[s as int] { Some(s) } else { None }
                } else {
                    &&& final(self).host_step_view() == old(self).host_step_view()
                    &&& final(seq).current_view() == old(seq).current_view()
                    &&& r is None
                },
                None => {
                    &&& final(self).host_step_view() == old(self).host_step_view()
                    &&& final(seq).current_view() == old(seq).current_view()
                    &&& r is None
                },
            },
    {
        proof {
            use_type_invariant(&*self);
        }
        let mut r: Option<usize> = None;
        if playing {
            if let Some(s) = host_step {
                let changed = match self.last_host_step {
                    Some(prev) => prev != s,
                    None => true,
                };
                if changed {
                    self.last_host_step = Some(s);
                    seq.set_current(s);
                    if seq.is_step_on(s) {
                        r = Some(s);
                    }
                }
            }
        } else {
            self.last_host_step = None;
        }
        self.sample_counter = 0;
        r
    }
}

proof fn lemma_fired_steps_split(steps: Seq<bool>, start: int, k1: nat, j: nat)
    ensures
        fired_steps(steps, start, k1 + j) == fired_steps(steps, start, k1) + fired_steps(
            steps,
            (start + k1) % 16,
            j,
        ),
    decreases j,
{
    if j == 0 {
        assert(fired_steps(steps, start, k1) + fired_steps(steps, (start + k1) % 16, 0) =~= fired_steps(
            steps,
            start,
            k1,
        ));
    } else {
        lemma_fired_steps_split(steps, start, k1, (j - 1) as nat);
        vstd::arithmetic::div_mod::lemma_add_mod_noop(start + k1, j as int, 16);
        vstd::arithmetic::div_mod::lemma_add_mod_noop(start + k1 + j, 0, 16);
        vstd::arithmetic::div_mod::lemma_add_mod_noop((start + k1) % 16, j as int, 16);
        assert(((start + k1) % 16 + j) % 16 == (start + (k1 + j)) % 16) by {
            vstd::arithmetic::div_mod::lemma_add_mod_noop_right(j as int, start + k1, 16);
        }
        let a = fired_steps(steps, start, k1);
        let b = fired_steps(steps, (start + k1) % 16, (j - 1) as nat);
        if steps[(start + (k1 + j)) % 16] {
            assert(fired_steps(steps, start, k1 + j) =~= a + b.push(((start + (k1 + j)) % 16) as usize));
        }
    }
}

/// Law: the standalone clock does not depend on how the audio is cut into
/// blocks. While running (after the start), advancing by `n1` samples and
/// then by `n2` gives the same counter, the same step and the same fired
/// steps, in order, as advancing by `n1 + n2` at once.
pub proof fn law_clock_block_size_independent(
    steps: Seq<bool>,
    counter: nat,
    step: nat,
    n1: nat,
    n2: nat,
    sps: nat,
)
    requires
        sps > 0,
    ensures
        ({
            let k1 = (counter + n1) / sps;
            let c1 = (counter + n1) % sps;
            let s1 = (step + k1) % 16;
            let k2 = (c1 + n2) / sps;
            let c2 = (c1 + n2) % sps;
            let s2 = (s1 + k2) % 16;
            let k = (counter + n1 + n2) / sps;
            &&& c2 == (counter + n1 + n2) % sps
            &&& s2 == (step + k) % 16
            &&& fired_steps(steps, step as int, k1 as nat) + fired_steps(steps, s1 as int, k2 as nat)
                == fired_steps(steps, step as int, k as nat)
        }),
{
    let k1 = (counter + n1) / sps;
    let c1 = (counter + n1) % sps;
    let k2 = (c1 + n2) / sps;
    let c2 = (c1 + n2) % sps;
    vstd::arithmetic::div_mod::lemma_fundamental_div_mod((counter + n1) as int, sps as int);
    vstd::arithmetic::div_mod::lemma_fundamental_div_mod((c1 + n2) as int, sps as int);
    assert(counter + n1 + n2 == (k1 + k2) * sps + c2) by (nonlinear_arith)
        requires
            counter + n1 == sps * k1 + c1,
            c1 + n2 == sps * k2 + c2,
    ;
    vstd::arithmetic::div_mod::lemma_fundamental_div_mod_converse(
        (counter + n1 + n2) as int,
        sps as int,
        (k1 + k2) as int,
        c2 as int,
    );
    vstd::arithmetic::div_mod::lemma_add_mod_noop((step + k1) as int, k2 as int, 16);
    vstd::arithmetic::div_mod::lemma_add_mod_noop_right(k2 as int, (step + k1) as int, 16);
    lemma_fired_steps_split(steps, step as int, k1 as nat, k2 as nat);
}

/// The pattern step of a host position counted in sixteenth notes (which
/// may be negative before the song start): the count modulo 16, in `0..16`.
pub fn wrap_host_step(sixteenths: i64) -> (r: usize)
    ensures
        r < 16,
        r as int == sixteenths as int % 16,
{
    let m = sixteenths % 16;
    if m < 0 {
        (m + 16) as usize
    } else {
        m as usize
    }
}

} // verus!

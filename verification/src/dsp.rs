//! Integer state of the voice's per-trigger analog drift generator, the
//! saturation mode selector and the master tube stage.

use vstd::prelude::*;

verus! {

/// Seed of the drift generator.
pub const DRIFT_SEED: u32 = 0xCAFEBABE;

/// The linear congruential step of the drift generator, modulo 2^32.
pub open spec fn lcg_next(state: u32) -> u32 {
    ((state as nat * 1664525 + 1013904223) % 0x1_0000_0000) as u32
}

/// The generator's state after `n` draws from the seed.
pub open spec fn drift_state_after(n: nat) -> u32
    decreases n,
{
    if n == 0 {
        DRIFT_SEED
    } else {
        lcg_next(drift_state_after((n - 1) as nat))
    }
}

/// Per-trigger drift source: a cheap deterministic LCG.
pub struct Drift {
    state: u32,
    /// How many values have been drawn since the generator was made.
    draws: Ghost<nat>,
}

impl Drift {
    #[verifier::type_invariant]
    spec fn inv(&self) -> bool {
        self.state == drift_state_after(self.draws@)
    }

    /// The generator's current state.
    pub closed spec fn state_view(&self) -> u32 {
        self.state
    }

    /// How many values have been drawn since the generator was made.
    pub closed spec fn draws_view(&self) -> nat {
        self.draws@
    }

    /// A generator at its fixed seed, so the drift sequence is the same on
    /// every run.
    pub fn new() -> (r: Self)
        ensures
            r.state_view() == DRIFT_SEED,
            r.draws_view() == 0,
    {
        Drift { state: DRIFT_SEED, draws: Ghost(0) }
    }

    /// Advance the generator and return its new state; callers scale it to
    /// a bipolar jitter. The `n`-th value drawn from any generator is
    /// `drift_state_after(n)`, whenever and wherever it was made.
    pub fn next_state(&mut self) -> (r: u32)
        ensures
            r == lcg_next(old(self).state_view()),
            final(self).state_view() == r,
            final(self).draws_view() == old(self).draws_view() + 1,
            r == drift_state_after(old(self).draws_view() + 1),
    {
        proof {
            use_type_invariant(&*self);
        }
        let s = self.state.wrapping_mul(1664525u32).wrapping_add(1013904223u32);
        proof {
            let m = (self.state as nat * 1664525) % 0x1_0000_0000;
            assert((m + 1013904223) % 0x1_0000_0000 == (self.state as nat * 1664525 + 1013904223)
                % 0x1_0000_0000) by (nonlinear_arith)
                requires
                    m == (self.state as nat * 1664525) % 0x1_0000_0000,
            ;
        }
        let ghost n = self.draws@ + 1;
        *self = Drift { state: s, draws: Ghost(n) };
        s
    }
}

/// Saturation stage mode.
#[derive(Clone, Copy, Debug, PartialEq, Eq, Structural)]
pub enum SatMode {
    Off,
    SoftClip,
    Diode,
    Tape,
}

/// The mode a stored number selects.
pub open spec fn sat_mode_of(v: u8) -> SatMode {
    match v {
        1 => SatMode::SoftClip,
        2 => SatMode::Diode,
        3 => SatMode::Tape,
        _ => SatMode::Off,
    }
}

impl SatMode {
    /// Mode from its stored number: 1 soft clip, 2 diode, 3 tape, anything
    /// else off.
    pub fn from_u8(v: u8) -> (r: SatMode)
        ensures
            r == sat_mode_of(v),
    {
        match v {
            1 => SatMode::SoftClip,
            2 => SatMode::Diode,
            3 => SatMode::Tape,
            _ => SatMode::Off,
        }
    }

    /// The stored number of a mode (0 off, 1 soft clip, 2 diode, 3 tape);
    /// `from_u8` gives the mode back.
    pub fn to_u8(self) -> (r: u8)
        ensures
            sat_mode_of(r) == self,
            r <= 3,
    {
        match self {
            SatMode::Off => 0,
            SatMode::SoftClip => 1,
            SatMode::Diode => 2,
            SatMode::Tape => 3,
        }
    }
}

/// The master-bus tube warmth stage. Memoryless: it holds no state.
pub struct TubeWarmth;

impl TubeWarmth {
    pub fn new() -> (r: Self) {
        TubeWarmth
    }
}

} // verus!

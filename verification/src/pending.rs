//! Ring of scheduled future drum hits (flams, ruffs and rolls from the step
//! sequencer). Each slot is dead or counts down samples; a slot at zero
//! fires on the next tick and dies.

use vstd::prelude::*;

verus! {

/// Number of slots: 4 hits × 3 overlapping step boundaries.
pub const PENDING_RING_SIZE: usize = 12;

/// One scheduled hit.
#[derive(Clone, Copy, Debug, PartialEq, Eq, Structural)]
pub struct PendingHit {
    pub samples_until: u32,
    pub live: bool,
}

/// The ring of scheduled hits.
pub struct PendingRing {
    slots: [PendingHit; 12],
}

/// A slot as a countdown: `None` when dead.
pub open spec fn slot_view(h: PendingHit) -> Option<u32> {
    if h.live {
        Some(h.samples_until)
    } else {
        None
    }
}

/// A slot after one tick: a countdown at zero fires and dies, others count down.
pub open spec fn tick_slot(o: Option<u32>) -> Option<u32> {
    match o {
        Some(n) => if n == 0 {
            None
        } else {
            Some((n - 1) as u32)
        },
        None => None,
    }
}

/// All slots after one tick.
pub open spec fn tick_all(s: Seq<Option<u32>>) -> Seq<Option<u32>> {
    Seq::new(s.len(), |j: int| tick_slot(s[j]))
}

/// All slots after `t` ticks.
pub open spec fn ticks(s: Seq<Option<u32>>, t: nat) -> Seq<Option<u32>>
    decreases t,
{
    if t == 0 {
        s
    } else {
        tick_all(ticks(s, (t - 1) as nat))
    }
}

/// Number of slots among the first `k` whose countdown is exactly `n`.
pub open spec fn count_at(s: Seq<Option<u32>>, n: u32, k: int) -> nat
    decreases k,
{
    if k <= 0 {
        0
    } else {
        count_at(s, n, k - 1) + if s[k - 1] == Some(n) {
            1nat
        } else {
            0nat
        }
    }
}

/// Index of the first dead slot at or after `i`, or the slot count.
pub open spec fn first_dead(s: Seq<Option<u32>>, i: int) -> int
    decreases s.len() - i,
{
    if i >= s.len() {
        s.len() as int
    } else if s[i] is None {
        i
    } else {
        first_dead(s, i + 1)
    }
}

/// A slot after one tick, as stored.
spec fn tick_hit(h: PendingHit) -> PendingHit {
    if h.live && h.samples_until == 0 {
        PendingHit { samples_until: 0, live: false }
    } else if h.live {
        PendingHit { samples_until: (h.samples_until - 1) as u32, live: true }
    } else {
        h
    }
}

impl View for PendingRing {
    type V = Seq<Option<u32>>;

    closed spec fn view(&self) -> Seq<Option<u32>> {
        Seq::new(12, |j: int| slot_view(self.slots@[j]))
    }
}

impl PendingRing {
    /// An idle ring.
    pub fn new() -> (r: Self)
        ensures
            r@ == Seq::new(12, |j: int| None::<u32>),
    {
        let r = PendingRing { slots: [PendingHit { samples_until: 0, live: false }; 12] };
        assert(r@ =~= Seq::new(12, |j: int| None::<u32>));
        r
    }

    /// Schedule a hit `samples_until` ticks ahead in the first dead slot;
    /// silently dropped when every slot is live.
    pub fn push(&mut self, samples_until: u32)
        ensures
            ({
                let i = first_dead(old(self)@, 0);
                if i < 12 {
                    final(self)@ == old(self)@.update(i, Some(samples_until))
                } else {
                    final(self)@ == old(self)@
                }
            }),
    {
        let ghost s0 = self@;
        let mut i: usize = 0;
        while i < PENDING_RING_SIZE
            invariant
                self@ == s0,
                s0 == old(self)@,
                self.slots == old(self).slots,
                s0.len() == 12,
                i <= 12,
                first_dead(s0, 0) == first_dead(s0, i as int),
            decreases 12 - i,
        {
            if !self.slots[i].live {
                assert(s0[i as int] == slot_view(self.slots@[i as int]));
                assert(s0[i as int] is None);
                assert(first_dead(s0, i as int) == i);
                self.slots[i] = PendingHit { samples_until, live: true };
                assert(self@ =~= s0.update(i as int, Some(samples_until))) by {
                    assert forall|j: int| 0 <= j < 12 implies #[trigger] self@[j] == s0.update(i as int, Some(samples_until))[j] by {
                        assert(self@[j] == slot_view(self.slots@[j]));
                        assert(s0[j] == slot_view(old(self).slots@[j]));
                    }
                }
                return;
            }
            assert(s0[i as int] == slot_view(self.slots@[i as int]));
            i = i + 1;
        }
    }

    /// Advance every slot by one sample. Returns how many hits fire now
    /// (one drum trigger each).
    pub fn tick(&mut self) -> (r: usize)
        ensures
            r == count_at(old(self)@, 0, 12),
            final(self)@ == tick_all(old(self)@),
    {
        let ghost s0 = self@;
        let mut count: usize = 0;
        let mut i: usize = 0;
        while i < PENDING_RING_SIZE
            invariant
                i <= 12,
                count == count_at(s0, 0, i as int),
                count <= i,
                s0.len() == 12,
                forall|j: int| 0 <= j < i ==> #[trigger] self.slots@[j] == tick_hit(old(self).slots@[j]),
                forall|j: int| i <= j < 12 ==> #[trigger] self.slots@[j] == old(self).slots@[j],
                s0 == old(self)@,
            decreases 12 - i,
        {
            let h = self.slots[i];
            assert(s0[i as int] == slot_view(old(self).slots@[i as int]));
            if h.live {
                if h.samples_until == 0 {
                    count = count + 1;
                    self.slots[i] = PendingHit { samples_until: 0, live: false };
                } else {
                    self.slots[i] = PendingHit { samples_until: h.samples_until - 1, live: true };
                }
            }
            i = i + 1;
        }
        assert forall|j: int| 0 <= j < 12 implies #[trigger] self@[j] == tick_all(s0)[j] by {
            assert(self@[j] == slot_view(self.slots@[j]));
            assert(s0[j] == slot_view(old(self).slots@[j]));
        }
        assert(self@ =~= tick_all(s0));
        count
    }

    /// Some slot is live.
    pub fn has_live(&self) -> (r: bool)
        ensures
            r == exists|j: int| 0 <= j < 12 && (#[trigger] self@[j]) is Some,
    {
        let mut i: usize = 0;
        while i < PENDING_RING_SIZE
            invariant
                i <= 12,
                forall|j: int| 0 <= j < i ==> (#[trigger] self@[j]) is None,
            decreases 12 - i,
        {
            if self.slots[i].live {
                assert(self@[i as int] is Some);
                return true;
            }
            i = i + 1;
        }
        false
    }
}

proof fn lemma_ticks_slot(s: Seq<Option<u32>>, t: nat, j: int)
    requires
        0 <= j < s.len(),
    ensures
        ticks(s, t).len() == s.len(),
        ticks(s, t)[j] == match s[j] {
            Some(n) => if n >= t {
                Some((n - t) as u32)
            } else {
                None
            },
            None => None,
        },
    decreases t,
{
    if t > 0 {
        lemma_ticks_slot(s, (t - 1) as nat, j);
    }
}

proof fn lemma_count_at_same(a: Seq<Option<u32>>, na: u32, b: Seq<Option<u32>>, nb: u32, k: int)
    requires
        0 <= k <= a.len(),
        k <= b.len(),
        forall|j: int| 0 <= j < k ==> (a[j] == Some(na) <==> b[j] == Some(nb)),
    ensures
        count_at(a, na, k) == count_at(b, nb, k),
    decreases k,
{
    if k > 0 {
        lemma_count_at_same(a, na, b, nb, k - 1);
    }
}

/// Law: a hit scheduled `n` samples ahead fires on the tick after the
/// `n`-th: the number of hits that fire on tick `t + 1` from a ring state is
/// the number of slots whose countdown was exactly `t`, and after `t + 1`
/// ticks those slots are dead.
pub proof fn law_hits_fire_after_their_countdown(s: Seq<Option<u32>>, t: u32)
    requires
        s.len() == 12,
    ensures
        count_at(ticks(s, t as nat), 0, 12) == count_at(s, t, 12),
        forall|j: int| 0 <= j < 12 && s[j] == Some(t) ==> (#[trigger] ticks(s, (t + 1) as nat)[j]) is None,
{
    assert forall|j: int| 0 <= j < 12 implies (ticks(s, t as nat)[j] == Some(0u32) <==> s[j] == Some(t)) by {
        lemma_ticks_slot(s, t as nat, j);
    }
    lemma_ticks_slot(s, t as nat, 0);
    lemma_count_at_same(ticks(s, t as nat), 0, s, t, 12);
    assert forall|j: int| 0 <= j < 12 && s[j] == Some(t) implies (#[trigger] ticks(s, (t + 1) as nat)[j]) is None by {
        lemma_ticks_slot(s, (t + 1) as nat, j);
    }
}

} // verus!

//! Note-block bitmap: one bit per `(channel, note)` telling whether a note-on
//! is claimed by a MIDI-learn binding, so that the audio path skips
//! triggering the drum for it. 16 channels × 128 notes = 2048 bits, packed
//! into 32 words. An [`OMNI`] block or unblock covers all 16 channels.

use vstd::prelude::*;

use crate::midi_map::{
    first_exact, first_omni, lemma_first_exact_bounds, lemma_first_omni_bounds, lookup_spec, notes_of,
    MidiBinding, MidiMapState, MidiSource, OMNI,
};

verus! {

/// Number of 64-bit words in the bitmap.
pub const WORDS: usize = 32;

/// `(channel, note) -> blocked?` for channels `0..16` and notes `0..128`.
pub struct NoteBlockMap {
    bits: [u64; 32],
}

/// Bit `k` of `w` is set.
pub open spec fn bit_set(w: u64, k: u64) -> bool {
    (w >> k) & 1u64 == 1u64
}

/// Flat index of a `(channel, note)` pair.
pub open spec fn flat_index(channel: int, note: int) -> int {
    channel * 128 + note
}

/// The pairs that a block or unblock of `(channel, note)` touches: the one
/// pair itself, all 16 channels for [`OMNI`], nothing when out of range.
pub open spec fn targets(channel: u8, note: u8) -> Set<(u8, u8)> {
    Set::new(
        |p: (u8, u8)| p.0 < 16 && note < 128 && p.1 == note && (channel == OMNI || p.0 == channel),
    )
}

/// The one pair `(channel, note)` when it is in range, else nothing.
pub open spec fn single(channel: u8, note: u8) -> Set<(u8, u8)> {
    Set::new(|p: (u8, u8)| channel < 16 && note < 128 && p == (channel, note))
}

/// The pairs blocked by the note-on bindings of `bs`: a note-on binding
/// blocks its note on its channel, or on every channel when it is OMNI.
pub open spec fn blocked_by(bs: Seq<MidiBinding>) -> Set<(u8, u8)> {
    Set::new(
        |p: (u8, u8)|
            p.0 < 16 && p.1 < 128 && exists|i: int|
                0 <= i < bs.len() && (#[trigger] bs[i]).source == MidiSource::NoteOn(p.1) && (
                bs[i].channel == p.0 || bs[i].channel == OMNI),
    )
}

/// The pairs blocked by a list of `(channel, note)` entries, each treated
/// as a block call.
pub open spec fn blocked_by_notes(ns: Seq<(u8, u8)>) -> Set<(u8, u8)> {
    Set::new(
        |p: (u8, u8)|
            p.0 < 16 && p.1 < 128 && exists|j: int|
                0 <= j < ns.len() && (#[trigger] ns[j]).1 == p.1 && (ns[j].0 == p.0 || ns[j].0
                    == OMNI),
    )
}

impl NoteBlockMap {
    /// Flat bit `idx` is set.
    spec fn flat_bit(&self, idx: int) -> bool {
        bit_set(self.bits@[idx / 64], (idx % 64) as u64)
    }

    /// The set of blocked `(channel, note)` pairs.
    pub closed spec fn blocked(&self) -> Set<(u8, u8)> {
        Set::new(|p: (u8, u8)| p.0 < 16 && p.1 < 128 && self.flat_bit(flat_index(p.0 as int, p.1 as int)))
    }
}

impl View for NoteBlockMap {
    type V = Set<(u8, u8)>;

    open spec fn view(&self) -> Set<(u8, u8)> {
        self.blocked()
    }
}

proof fn lemma_bit_ops(w: u64, k: u64, j: u64)
    requires
        k < 64,
        j < 64,
    ensures
        ((w & (1u64 << k)) != 0u64) == bit_set(w, k),
        bit_set(w | (1u64 << k), j) == (j == k || bit_set(w, j)),
        bit_set(w & !(1u64 << k), j) == (j != k && bit_set(w, j)),
        !bit_set(0u64, j),
{
    assert(((w & (1u64 << k)) != 0u64) == ((w >> k) & 1u64 == 1u64)) by (bit_vector)
        requires
            k < 64,
    ;
    assert(((w | (1u64 << k)) >> j) & 1u64 == 1u64 <==> (j == k || (w >> j) & 1u64 == 1u64))
        by (bit_vector)
        requires
            k < 64,
            j < 64,
    ;
    assert(((w & !(1u64 << k)) >> j) & 1u64 == 1u64 <==> (j != k && (w >> j) & 1u64 == 1u64))
        by (bit_vector)
        requires
            k < 64,
            j < 64,
    ;
    assert((0u64 >> j) & 1u64 != 1u64) by (bit_vector);
}

proof fn lemma_flat_index(c1: int, n1: int, c2: int, n2: int)
    requires
        0 <= c1 < 16,
        0 <= c2 < 16,
        0 <= n1 < 128,
        0 <= n2 < 128,
    ensures
        0 <= flat_index(c1, n1) < 2048,
        flat_index(c1, n1) == flat_index(c2, n2) <==> (c1 == c2 && n1 == n2),
{
    assert(0 <= c1 * 128 + n1 < 2048) by (nonlinear_arith)
        requires
            0 <= c1 < 16,
            0 <= n1 < 128,
    ;
    assert(c1 * 128 + n1 == c2 * 128 + n2 ==> c1 == c2 && n1 == n2) by (nonlinear_arith)
        requires
            0 <= n1 < 128,
            0 <= n2 < 128,
    ;
}

proof fn lemma_div_mod_64(a: int, b: int)
    requires
        0 <= a,
        0 <= b,
        a != b,
        a / 64 == b / 64,
    ensures
        a % 64 != b % 64,
{
}

impl NoteBlockMap {
    /// An empty map: nothing blocked.
    pub fn new() -> (r: Self)
        ensures
            r@ == Set::<(u8, u8)>::empty(),
    {
        let r = NoteBlockMap { bits: [0u64; 32] };
        assert(r.blocked() =~= Set::<(u8, u8)>::empty()) by {
            assert forall|p: (u8, u8)| !r.blocked().contains(p) by {
                if p.0 < 16 && p.1 < 128 {
                    lemma_flat_index(p.0 as int, p.1 as int, p.0 as int, p.1 as int);
                    let idx = flat_index(p.0 as int, p.1 as int);
                    lemma_bit_ops(0u64, 0u64, (idx % 64) as u64);
                }
            }
        }
        r
    }

    /// Word index and bit mask of `(channel, note)`, or `None` out of range.
    fn slot(channel: u8, note: u8) -> (r: Option<(usize, u64)>)
        ensures
            match r {
                Some((word, mask)) => {
                    &&& channel < 16 && note < 128
                    &&& word as int == flat_index(channel as int, note as int) / 64
                    &&& mask == 1u64 << ((flat_index(channel as int, note as int) % 64) as u64)
                    &&& word < WORDS
                },
                None => !(channel < 16 && note < 128),
            },
    {
        if channel >= 16 || note >= 128 {
            return None;
        }
        proof {
            lemma_flat_index(channel as int, note as int, channel as int, note as int);
        }
        let idx: usize = (channel as usize) * 128 + (note as usize);
        Some((idx / 64, 1u64 << ((idx % 64) as u64)))
    }

    /// Is `(channel, note)` blocked? Always `false` out of range.
    pub fn is_blocked(&self, channel: u8, note: u8) -> (r: bool)
        ensures
            r == self@.contains((channel, note)),
    {
        match Self::slot(channel, note) {
            Some((word, mask)) => {
                proof {
                    let idx = flat_index(channel as int, note as int);
                    lemma_flat_index(channel as int, note as int, channel as int, note as int);
                    lemma_bit_ops(self.bits@[word as int], (idx % 64) as u64, 0u64);
                }
                self.bits[word] & mask != 0
            },
            None => false,
        }
    }

    /// Set (`on`) or clear the bit of one in-range pair; out-of-range pairs
    /// are ignored.
    fn set_bit(&mut self, channel: u8, note: u8, on: bool)
        ensures
            on ==> final(self)@ == old(self)@.union(single(channel, note)),
            !on ==> final(self)@ == old(self)@.difference(single(channel, note)),
    {
        if let Some((word, mask)) = Self::slot(channel, note) {
            let w = self.bits[word];
            let nw = if on {
                w | mask
            } else {
                w & !mask
            };
            self.bits[word] = nw;
            proof {
                let idx = flat_index(channel as int, note as int);
                lemma_flat_index(channel as int, note as int, channel as int, note as int);
                let expect = if on {
                    old(self)@.union(single(channel, note))
                } else {
                    old(self)@.difference(single(channel, note))
                };
                assert forall|p: (u8, u8)| #[trigger] self@.contains(p) == expect.contains(p) by {
                    if p.0 < 16 && p.1 < 128 {
                        let q = flat_index(p.0 as int, p.1 as int);
                        lemma_flat_index(p.0 as int, p.1 as int, channel as int, note as int);
                        if q / 64 == word as int {
                            lemma_bit_ops(w, (idx % 64) as u64, (q % 64) as u64);
                            if q != idx {
                                lemma_div_mod_64(q, idx);
                            }
                        } else {
                            assert(self.bits@[q / 64] == old(self).bits@[q / 64]);
                        }
                    }
                }
                assert(self@ =~= expect);
            }
        } else {
            assert(single(channel, note) =~= Set::<(u8, u8)>::empty());
            assert(old(self)@.union(single(channel, note)) =~= old(self)@);
            assert(old(self)@.difference(single(channel, note)) =~= old(self)@);
        }
    }
}

impl NoteBlockMap {
    /// Mark `(channel, note)` as bound; `channel == OMNI` blocks the note on
    /// all 16 channels. Out-of-range pairs are ignored.
    pub fn block(&mut self, channel: u8, note: u8)
        ensures
            final(self)@ == old(self)@.union(targets(channel, note)),
    {
        self.set_all(channel, note, true);
    }

    /// Clear the block of `(channel, note)`; `channel == OMNI` clears the
    /// note on all 16 channels. Out-of-range pairs are ignored.
    pub fn unblock(&mut self, channel: u8, note: u8)
        ensures
            final(self)@ == old(self)@.difference(targets(channel, note)),
    {
        self.set_all(channel, note, false);
    }

    fn set_all(&mut self, channel: u8, note: u8, on: bool)
        ensures
            on ==> final(self)@ == old(self)@.union(targets(channel, note)),
            !on ==> final(self)@ == old(self)@.difference(targets(channel, note)),
    {
        if channel == OMNI {
            let mut ch: u8 = 0;
            while ch < 16
                invariant
                    channel == OMNI,
                    ch <= 16,
                    on ==> self@ == old(self)@.union(
                        Set::new(|p: (u8, u8)| p.0 < ch && note < 128 && p.1 == note),
                    ),
                    !on ==> self@ == old(self)@.difference(
                        Set::new(|p: (u8, u8)| p.0 < ch && note < 128 && p.1 == note),
                    ),
                decreases 16 - ch,
            {
                let ghost before = self@;
                self.set_bit(ch, note, on);
                let ghost done = Set::new(|p: (u8, u8)| p.0 < ch && note < 128 && p.1 == note);
                let ghost done2 = Set::new(|p: (u8, u8)| p.0 < ch + 1 && note < 128 && p.1 == note);
                assert(done2 =~= done.union(single(ch, note)));
                if on {
                    assert(self@ =~= old(self)@.union(done2));
                } else {
                    assert(self@ =~= old(self)@.difference(done2));
                }
                ch = ch + 1;
            }
            assert(targets(channel, note) =~= Set::new(
                |p: (u8, u8)| p.0 < 16 && note < 128 && p.1 == note,
            ));
        } else {
            self.set_bit(channel, note, on);
            assert(targets(channel, note) =~= single(channel, note));
        }
    }

    /// Replace the whole block set with the note-on bindings of `state`.
    pub fn rebuild_from(&mut self, state: &MidiMapState)
        ensures
            final(self)@ == blocked_by(state.bindings@),
    {
        let mut w: usize = 0;
        while w < WORDS
            invariant
                w <= WORDS,
                forall|j: int| 0 <= j < w ==> self.bits@[j] == 0u64,
            decreases WORDS - w,
        {
            self.bits[w] = 0u64;
            w = w + 1;
        }
        assert(self@ =~= Set::<(u8, u8)>::empty()) by {
            assert forall|p: (u8, u8)| !self@.contains(p) by {
                if p.0 < 16 && p.1 < 128 {
                    lemma_flat_index(p.0 as int, p.1 as int, p.0 as int, p.1 as int);
                    let idx = flat_index(p.0 as int, p.1 as int);
                    lemma_bit_ops(0u64, 0u64, (idx % 64) as u64);
                }
            }
        }
        let notes = state.bound_notes();
        let mut k: usize = 0;
        while k < notes.len()
            invariant
                k <= notes@.len(),
                self@ == blocked_by_notes(notes@.take(k as int)),
            decreases notes@.len() - k,
        {
            let (c, n) = notes[k];
            self.block(c, n);
            proof {
                let a = notes@.take(k as int);
                let b = notes@.take(k + 1);
                assert forall|p: (u8, u8)| #[trigger] self@.contains(p) == blocked_by_notes(b).contains(p) by {
                    if blocked_by_notes(b).contains(p) {
                        let j = choose|j: int|
                            0 <= j < b.len() && (#[trigger] b[j]).1 == p.1 && (b[j].0 == p.0 || b[j].0 == OMNI);
                        if j < k {
                            assert(a[j] == b[j]);
                        }
                    }
                    if blocked_by_notes(a).contains(p) {
                        let j = choose|j: int|
                            0 <= j < a.len() && (#[trigger] a[j]).1 == p.1 && (a[j].0 == p.0 || a[j].0 == OMNI);
                        assert(b[j] == a[j]);
                    }
                    if targets(c, n).contains(p) {
                        assert(b[k as int] == (c, n));
                    }
                }
                assert(self@ =~= blocked_by_notes(b));
            }
            k = k + 1;
        }
        proof {
            assert(notes@.take(notes@.len() as int) =~= notes@);
            lemma_notes_of(state.bindings@);
            assert(self@ =~= blocked_by(state.bindings@)) by {
                assert forall|p: (u8, u8)| #[trigger] self@.contains(p) == blocked_by(state.bindings@).contains(p) by {
                    let bs = state.bindings@;
                    let ns = notes@;
                    if blocked_by_notes(ns).contains(p) {
                        let j = choose|j: int| 0 <= j < ns.len() && (#[trigger] ns[j]).1 == p.1 && (ns[j].0 == p.0 || ns[j].0 == OMNI);
                        let c = ns[j].0;
                        let n = ns[j].1;
                        assert(ns[j] == (c, n));
                        assert(notes_of(bs).contains((c, n)));
                        let i = choose|i: int| 0 <= i < bs.len() && (#[trigger] bs[i]).source == MidiSource::NoteOn(n) && bs[i].channel == c;
                        assert(bs[i].source == MidiSource::NoteOn(p.1));
                    }
                    if blocked_by(bs).contains(p) {
                        let i = choose|i: int| 0 <= i < bs.len() && (#[trigger] bs[i]).source == MidiSource::NoteOn(p.1) && (bs[i].channel == p.0 || bs[i].channel == OMNI);
                        assert(ns.contains((bs[i].channel, p.1)));
                        let j = choose|j: int| 0 <= j < ns.len() && ns[j] == (bs[i].channel, p.1);
                        assert(ns[j].1 == p.1);
                    }
                }
            }
        }
    }
}

/// `(c, n)` is among the bound notes of `bs` exactly when some binding of
/// `bs` is a note-on for `n` on channel `c`.
proof fn lemma_notes_of(bs: Seq<MidiBinding>)
    ensures
        forall|c: u8, n: u8|
            #[trigger] notes_of(bs).contains((c, n)) <==> exists|i: int|
                0 <= i < bs.len() && (#[trigger] bs[i]).source == MidiSource::NoteOn(n) && bs[i].channel
                    == c,
    decreases bs.len(),
{
    if bs.len() > 0 {
        let front = bs.drop_last();
        lemma_notes_of(front);
        let rest = notes_of(front);
        assert forall|c: u8, n: u8|
            #[trigger] notes_of(bs).contains((c, n)) <==> exists|i: int|
                0 <= i < bs.len() && (#[trigger] bs[i]).source == MidiSource::NoteOn(n) && bs[i].channel
                    == c by {
            if notes_of(bs).contains((c, n)) {
                let j = choose|j: int| 0 <= j < notes_of(bs).len() && notes_of(bs)[j] == (c, n);
                if j < rest.len() {
                    assert(rest[j] == (c, n));
                    assert(rest.contains((c, n)));
                    let i = choose|i: int| 0 <= i < front.len() && (#[trigger] front[i]).source == MidiSource::NoteOn(n) && front[i].channel == c;
                    assert(bs[i] == front[i]);
                } else {
                    assert(bs[bs.len() - 1].source == MidiSource::NoteOn(n));
                }
            }
            if exists|i: int| 0 <= i < bs.len() && (#[trigger] bs[i]).source == MidiSource::NoteOn(n) && bs[i].channel == c {
                let i = choose|i: int| 0 <= i < bs.len() && (#[trigger] bs[i]).source == MidiSource::NoteOn(n) && bs[i].channel == c;
                if i < bs.len() - 1 {
                    assert(front[i] == bs[i]);
                    assert(rest.contains((c, n)));
                    let j = choose|j: int| 0 <= j < rest.len() && rest[j] == (c, n);
                    match bs.last().source {
                        MidiSource::NoteOn(m) => { assert(notes_of(bs)[j] == (c, n)); },
                        MidiSource::Cc(_) => { assert(notes_of(bs)[j] == (c, n)); },
                    }
                } else {
                    assert(notes_of(bs) == rest.push((c, n)));
                    assert(notes_of(bs)[rest.len() as int] == (c, n));
                }
            }
        }
    } else {
        assert forall|c: u8, n: u8| !(#[trigger] notes_of(bs).contains((c, n))) by {}
    }
}

/// Law: for an in-range `(channel, note)`, the map rebuilt from a binding
/// table blocks the note exactly when a lookup of that note-on in the table
/// finds a binding, so a note that drives a parameter never also fires the
/// drum, and every other note still does.
pub proof fn law_blocked_iff_note_bound(bs: Seq<MidiBinding>, channel: u8, note: u8)
    requires
        channel < 16,
        note < 128,
    ensures
        blocked_by(bs).contains((channel, note)) <==> lookup_spec(
            bs,
            channel,
            MidiSource::NoteOn(note),
        ) is Some,
{
    let src = MidiSource::NoteOn(note);
    lemma_first_exact_bounds(bs, channel, src, 0);
    lemma_first_omni_bounds(bs, src, 0);
    let e = first_exact(bs, channel, src, 0);
    let o = first_omni(bs, src, 0);
    if e < bs.len() {
        assert(bs[e].source == src && bs[e].channel == channel);
    } else if o < bs.len() {
        assert(bs[o].source == src && bs[o].channel == OMNI);
    }
    if blocked_by(bs).contains((channel, note)) {
        let i = choose|i: int|
            0 <= i < bs.len() && (#[trigger] bs[i]).source == src && (bs[i].channel == channel
                || bs[i].channel == OMNI);
        if bs[i].channel == channel {
            assert(e <= i);
        } else {
            assert(o <= i);
        }
    }
}

/// Law: unblocking what was just blocked restores the map, when none of the
/// touched pairs was blocked before.
pub proof fn law_unblock_undoes_block(before: Set<(u8, u8)>, channel: u8, note: u8)
    requires
        before.disjoint(targets(channel, note)),
    ensures
        before.union(targets(channel, note)).difference(targets(channel, note)) == before,
{
    assert(before.union(targets(channel, note)).difference(targets(channel, note)) =~= before);
}

/// Law: a map never blocks an out-of-range channel or note, whatever was
/// asked of it, so `is_blocked` answers `false` there.
pub proof fn law_out_of_range_never_blocked(m: NoteBlockMap, channel: u8, note: u8)
    requires
        channel >= 16 || note >= 128,
    ensures
        !m@.contains((channel, note)),
{
}

/// Law: blocking a note on one channel blocks that one pair and nothing
/// else: every other pair, the same note on any other channel included, is
/// blocked afterwards exactly when it was before. Unblocking likewise
/// clears that one pair alone.
pub proof fn law_channel_block_is_single_pair(
    before: Set<(u8, u8)>,
    channel: u8,
    note: u8,
    other: (u8, u8),
)
    requires
        channel < 16,
        note < 128,
        other != (channel, note),
    ensures
        before.union(targets(channel, note)).contains((channel, note)),
        !before.difference(targets(channel, note)).contains((channel, note)),
        before.union(targets(channel, note)).contains(other) == before.contains(other),
        before.difference(targets(channel, note)).contains(other) == before.contains(other),
{
}

/// Law: an OMNI block of an in-range note blocks it on every channel.
pub proof fn law_omni_block_covers_every_channel(before: Set<(u8, u8)>, note: u8, channel: u8)
    requires
        note < 128,
        channel < 16,
    ensures
        before.union(targets(OMNI, note)).contains((channel, note)),
        !before.difference(targets(OMNI, note)).contains((channel, note)),
{
}

} // verus!

//! MIDI-learn binding table: maps incoming MIDI CCs and note-ons (per channel,
//! or on any channel through [`OMNI`]) to plugin parameter ids.
//!
//! The table is a list of [`MidiBinding`]s. Its well-formedness
//! ([`bindings_well_formed`]) says that each parameter id appears at most once
//! and that each `(channel, source)` pair appears at most once; `bind`,
//! `forget` and `set_encoding` keep it.

use vstd::prelude::*;

pub use crate::note_block::NoteBlockMap;

verus! {

/// Channel value meaning "any channel". MIDI channels are `0..=15`.
pub const OMNI: u8 = 16;

/// What kind of MIDI event a binding listens for.
#[derive(Clone, Copy, Debug, PartialEq, Eq, Structural)]
pub enum MidiSource {
    /// Continuous controller number.
    Cc(u8),
    /// Note-on for a note number (velocity becomes the value).
    NoteOn(u8),
}

/// How a CC binding interprets incoming values.
#[derive(Clone, Copy, Debug, PartialEq, Eq, Structural)]
pub enum CcEncoding {
    /// `0..=127` maps directly to the parameter's normalized value.
    Absolute,
    /// Sign-magnitude relative encoder: `1` = +1, `127` = -1, `0`/`64` = no move.
    BinaryOffset,
    /// Two's-complement-around-64 relative encoder: `64` = no move, `65` = +1.
    Centered,
}

impl Default for CcEncoding {
    fn default() -> (r: Self)
        ensures
            r == CcEncoding::Absolute,
    {
        CcEncoding::Absolute
    }
}

/// One binding: a `(channel, source)` pair mapped to a parameter id.
#[derive(Clone, Debug, PartialEq)]
pub struct MidiBinding {
    /// `0..=15` for a specific channel, [`OMNI`] for any channel.
    pub channel: u8,
    pub source: MidiSource,
    pub param_id: String,
    /// Ignored for note-on sources.
    pub encoding: CcEncoding,
}

/// The persisted MIDI-learn table.
#[derive(Clone, Debug, PartialEq)]
pub struct MidiMapState {
    pub bindings: Vec<MidiBinding>,
}

impl Default for MidiMapState {
    fn default() -> (r: Self)
        ensures
            r.bindings@.len() == 0,
    {
        MidiMapState { bindings: Vec::new() }
    }
}

/// The signed step count a relative encoder's raw CC byte stands for
/// (0 for the no-movement values and for absolute bindings).
pub open spec fn relative_steps(raw: int, encoding: CcEncoding) -> int {
    match encoding {
        CcEncoding::Absolute => 0,
        CcEncoding::BinaryOffset => if raw == 0 || raw == 64 {
            0
        } else if raw < 64 {
            raw
        } else {
            raw - 128
        },
        CcEncoding::Centered => raw - 64,
    }
}

/// The encoding guessed from the first raw value captured at bind time.
pub open spec fn detected_encoding(raw: int) -> CcEncoding {
    if raw == 1 || raw == 127 {
        CcEncoding::BinaryOffset
    } else if raw == 63 || raw == 65 {
        CcEncoding::Centered
    } else {
        CcEncoding::Absolute
    }
}

/// Decode a raw CC byte (the normalized value times 127, rounded) into a
/// signed step count under a relative encoding. Sign-magnitude: `1..=63`
/// is `+1..=+63`, `65..=127` is `-63..=-1`, `0` and `64` are no movement.
/// Centered: the value minus 64. Absolute bindings decode to 0.
pub fn decode_relative_steps(raw: i32, encoding: CcEncoding) -> (r: i32)
    requires
        encoding == CcEncoding::Centered ==> raw >= i32::MIN + 64,
    ensures
        r == relative_steps(raw as int, encoding),
{
    match encoding {
        CcEncoding::Absolute => 0,
        CcEncoding::BinaryOffset => {
            if raw == 0 || raw == 64 {
                0
            } else if raw < 64 {
                raw
            } else {
                raw - 128
            }
        },
        CcEncoding::Centered => raw - 64,
    }
}

/// Guess a CC encoding from the first raw value captured at bind time:
/// `1` or `127` sign-magnitude, `63` or `65` centered, anything else
/// absolute.
pub fn detect_cc_encoding_raw(raw: i32) -> (r: CcEncoding)
    ensures
        r == detected_encoding(raw as int),
{
    if raw == 1 || raw == 127 {
        CcEncoding::BinaryOffset
    } else if raw == 63 || raw == 65 {
        CcEncoding::Centered
    } else {
        CcEncoding::Absolute
    }
}

/// Law: a value that makes the detector pick a relative encoding reads,
/// under that encoding, as a single step one way or the other.
pub proof fn law_detected_value_is_one_step(raw: int)
    requires
        detected_encoding(raw) != CcEncoding::Absolute,
    ensures
        relative_steps(raw, detected_encoding(raw)) == 1 || relative_steps(
            raw,
            detected_encoding(raw),
        ) == -1,
{
}

/// Law: decoding gives back the turn an encoder sent. A sign-magnitude
/// encoder turned `d` detents (`1 <= d <= 63`) sends `d` clockwise and
/// `128 - d` counter-clockwise; a centered encoder turned `d` detents
/// (`-64 <= d <= 63`) sends `64 + d`. Under sign-magnitude every byte below
/// 64 other than 0 reads as a clockwise turn and every byte above 64 as a
/// counter-clockwise one, never more than 63 detents; 0 and 64 read as no
/// movement.
pub proof fn law_relative_decoding_inverts_encoder(d: int, raw: int)
    ensures
        1 <= d <= 63 ==> relative_steps(d, CcEncoding::BinaryOffset) == d,
        1 <= d <= 63 ==> relative_steps(128 - d, CcEncoding::BinaryOffset) == -d,
        -64 <= d <= 63 ==> relative_steps(64 + d, CcEncoding::Centered) == d,
        relative_steps(0, CcEncoding::BinaryOffset) == 0,
        relative_steps(64, CcEncoding::BinaryOffset) == 0,
        1 <= raw <= 127 && raw != 64 ==> {
            let s = relative_steps(raw, CcEncoding::BinaryOffset);
            &&& (s > 0 <==> raw < 64)
            &&& s != 0
            &&& -63 <= s <= 63
        },
        relative_steps(raw, CcEncoding::Absolute) == 0,
{
}

// ---------------------------------------------------------------------------
// Specification
// ---------------------------------------------------------------------------

/// `b` listens for `source` on exactly `channel`.
pub open spec fn is_exact(b: MidiBinding, channel: u8, source: MidiSource) -> bool {
    b.source == source && b.channel == channel
}

/// `b` listens for `source` on any channel.
pub open spec fn is_omni(b: MidiBinding, source: MidiSource) -> bool {
    b.source == source && b.channel == OMNI
}

/// Index of the first binding at or after `i` that is exact for
/// `(channel, source)`, or `bs.len()` when there is none.
pub open spec fn first_exact(bs: Seq<MidiBinding>, channel: u8, source: MidiSource, i: int) -> int
    decreases bs.len() - i,
{
    if i >= bs.len() {
        bs.len() as int
    } else if is_exact(bs[i], channel, source) {
        i
    } else {
        first_exact(bs, channel, source, i + 1)
    }
}

/// Index of the first OMNI binding for `source` at or after `i`, or `bs.len()`.
pub open spec fn first_omni(bs: Seq<MidiBinding>, source: MidiSource, i: int) -> int
    decreases bs.len() - i,
{
    if i >= bs.len() {
        bs.len() as int
    } else if is_omni(bs[i], source) {
        i
    } else {
        first_omni(bs, source, i + 1)
    }
}

/// Index of the first binding at or after `i` for parameter `pid`, or `bs.len()`.
pub open spec fn first_param(bs: Seq<MidiBinding>, pid: Seq<char>, i: int) -> int
    decreases bs.len() - i,
{
    if i >= bs.len() {
        bs.len() as int
    } else if bs[i].param_id@ == pid {
        i
    } else {
        first_param(bs, pid, i + 1)
    }
}

/// What a lookup of `(channel, source)` yields: the first exact-channel
/// binding, else the first OMNI binding, as `(param id, encoding)`.
pub open spec fn lookup_spec(bs: Seq<MidiBinding>, channel: u8, source: MidiSource) -> Option<
    (Seq<char>, CcEncoding),
> {
    let e = first_exact(bs, channel, source, 0);
    let o = first_omni(bs, source, 0);
    if e < bs.len() {
        Some((bs[e].param_id@, bs[e].encoding))
    } else if o < bs.len() {
        Some((bs[o].param_id@, bs[o].encoding))
    } else {
        None
    }
}

/// The `(channel, source, encoding)` of the first binding for `pid`.
pub open spec fn binding_for_param_spec(bs: Seq<MidiBinding>, pid: Seq<char>) -> Option<
    (u8, MidiSource, CcEncoding),
> {
    let i = first_param(bs, pid, 0);
    if i < bs.len() {
        Some((bs[i].channel, bs[i].source, bs[i].encoding))
    } else {
        None
    }
}

/// A binding survives `bind(channel, source, pid, _)` unless it has the same
/// `(channel, source)` or the same parameter id.
pub open spec fn survives_bind(b: MidiBinding, channel: u8, source: MidiSource, pid: Seq<char>) -> bool {
    !((b.channel == channel && b.source == source) || b.param_id@ == pid)
}

/// The bindings of `bs` that survive `bind(channel, source, pid, _)`, in order.
pub open spec fn retained(bs: Seq<MidiBinding>, channel: u8, source: MidiSource, pid: Seq<char>) -> Seq<
    MidiBinding,
>
    decreases bs.len(),
{
    if bs.len() == 0 {
        Seq::empty()
    } else {
        let rest = retained(bs.drop_last(), channel, source, pid);
        if survives_bind(bs.last(), channel, source, pid) {
            rest.push(bs.last())
        } else {
            rest
        }
    }
}

/// The `(channel, note)` pairs of the note-on bindings of `bs`, in order.
pub open spec fn notes_of(bs: Seq<MidiBinding>) -> Seq<(u8, u8)>
    decreases bs.len(),
{
    if bs.len() == 0 {
        Seq::empty()
    } else {
        let rest = notes_of(bs.drop_last());
        match bs.last().source {
            MidiSource::NoteOn(n) => rest.push((bs.last().channel, n)),
            MidiSource::Cc(_) => rest,
        }
    }
}

/// Each parameter id is bound at most once, and each `(channel, source)`
/// pair at most once.
pub open spec fn bindings_well_formed(bs: Seq<MidiBinding>) -> bool {
    forall|i: int, j: int|
        #![trigger bs[i], bs[j]]
        0 <= i < j < bs.len() ==> bs[i].param_id@ != bs[j].param_id@ && !(bs[i].channel
            == bs[j].channel && bs[i].source == bs[j].source)
}

impl MidiMapState {
    /// The table's well-formedness (see the module documentation).
    pub open spec fn well_formed(&self) -> bool {
        bindings_well_formed(self.bindings@)
    }

    /// Find the binding for `(channel, source)`, preferring an exact channel
    /// match over an [`OMNI`] one. Returns `(param_id, encoding)`.
    pub fn lookup(&self, channel: u8, source: MidiSource) -> (r: Option<(&str, CcEncoding)>)
        ensures
            r is Some <==> lookup_spec(self.bindings@, channel, source) is Some,
            r matches Some((p, e)) ==> (p@, e) == lookup_spec(self.bindings@, channel, source)->0,
    {
        let ghost bs = self.bindings@;
        let mut omni_match: Option<usize> = None;
        let mut i: usize = 0;
        while i < self.bindings.len()
            invariant
                bs == self.bindings@,
                i <= bs.len(),
                first_exact(bs, channel, source, 0) == first_exact(bs, channel, source, i as int),
                match omni_match {
                    None => first_omni(bs, source, 0) == first_omni(bs, source, i as int),
                    Some(k) => k == first_omni(bs, source, 0) && k < i,
                },
            decreases bs.len() - i,
        {
            let b = &self.bindings[i];
            if b.source == source {
                if b.channel == channel {
                    return Some((b.param_id.as_str(), b.encoding));
                }
                if b.channel == OMNI && omni_match.is_none() {
                    omni_match = Some(i);
                }
            }
            i = i + 1;
        }
        match omni_match {
            Some(k) => Some((self.bindings[k].param_id.as_str(), self.bindings[k].encoding)),
            None => None,
        }
    }

    /// The `(channel, source, encoding)` of the binding for `param_id`, if any.
    pub fn binding_for_param(&self, param_id: &str) -> (r: Option<(u8, MidiSource, CcEncoding)>)
        ensures
            r == binding_for_param_spec(self.bindings@, param_id@),
    {
        let i = self.position_of(param_id);
        if i < self.bindings.len() {
            let b = &self.bindings[i];
            Some((b.channel, b.source, b.encoding))
        } else {
            None
        }
    }

    /// Index of the first binding for `param_id`, or the table's length.
    fn position_of(&self, param_id: &str) -> (r: usize)
        ensures
            r as int == first_param(self.bindings@, param_id@, 0),
    {
        let key: String = param_id.to_owned();
        let ghost bs = self.bindings@;
        let mut i: usize = 0;
        while i < self.bindings.len()
            invariant
                bs == self.bindings@,
                key@ == param_id@,
                i <= bs.len(),
                first_param(bs, param_id@, 0) == first_param(bs, param_id@, i as int),
            decreases bs.len() - i,
        {
            if self.bindings[i].param_id == key {
                return i;
            }
            i = i + 1;
        }
        i
    }

    /// Bind `(channel, source)` to `param_id`, first dropping every binding
    /// with the same `(channel, source)` or the same parameter id; the new
    /// binding goes last.
    pub fn bind(&mut self, channel: u8, source: MidiSource, param_id: &str, encoding: CcEncoding)
        ensures
            final(self).bindings@.len() > 0,
            final(self).bindings@.drop_last() == retained(
                old(self).bindings@,
                channel,
                source,
                param_id@,
            ),
            final(self).bindings@.last().channel == channel,
            final(self).bindings@.last().source == source,
            final(self).bindings@.last().param_id@ == param_id@,
            final(self).bindings@.last().encoding == encoding,
            lookup_spec(final(self).bindings@, channel, source) == Some((param_id@, encoding)),
            binding_for_param_spec(final(self).bindings@, param_id@) == Some(
                (channel, source, encoding),
            ),
            old(self).well_formed() ==> final(self).well_formed(),
    {
        let key: String = param_id.to_owned();
        let mut rest: Vec<MidiBinding> = Vec::new();
        std::mem::swap(&mut rest, &mut self.bindings);
        let ghost orig = rest@;
        let mut kept: Vec<MidiBinding> = Vec::new();
        while rest.len() > 0
            invariant
                key@ == param_id@,
                rest@.len() <= orig.len(),
                rest@ == orig.skip(orig.len() - rest@.len()),
                kept@ == retained(orig.take(orig.len() - rest@.len()), channel, source, param_id@),
            decreases rest@.len(),
        {
            let ghost k = orig.len() - rest@.len();
            let b = rest.remove(0);
            assert(b == orig[k]);
            assert(orig.take(k + 1).drop_last() =~= orig.take(k));
            assert(rest@ =~= orig.skip(k + 1));
            if !((b.channel == channel && b.source == source) || b.param_id == key) {
                kept.push(b);
            }
        }
        assert(orig.take(orig.len() as int) =~= orig);
        let ghost before = kept@;
        kept.push(MidiBinding { channel, source, param_id: key, encoding });
        assert(kept@.drop_last() =~= before);
        proof {
            let nb = kept@.last();
            lemma_retained(orig, channel, source, param_id@);
            assert forall|j: int| 0 <= j < before.len() implies !is_exact(
                #[trigger] kept@[j],
                channel,
                source,
            ) && kept@[j].param_id@ != param_id@ by {
                assert(kept@[j] == before[j]);
                assert(before.contains(before[j]));
            }
            lemma_first_exact_at(kept@, channel, source, before.len() as int, 0);
            lemma_first_param_at(kept@, param_id@, before.len() as int, 0);
            if bindings_well_formed(orig) {
                lemma_push_unique_well_formed(before, nb);
                assert(kept@ =~= before.push(nb));
            }
        }
        self.bindings = kept;
    }

    /// Replace the encoding of the binding for `param_id`. Returns the new
    /// encoding, or `None` (table unchanged) when `param_id` is not bound.
    pub fn set_encoding(&mut self, param_id: &str, encoding: CcEncoding) -> (r: Option<CcEncoding>)
        ensures
            ({
                let i = first_param(old(self).bindings@, param_id@, 0);
                if i < old(self).bindings@.len() {
                    &&& r == Some(encoding)
                    &&& final(self).bindings@ == old(self).bindings@.update(
                        i,
                        MidiBinding { encoding, ..old(self).bindings@[i] },
                    )
                } else {
                    &&& r is None
                    &&& final(self).bindings@ == old(self).bindings@
                }
            }),
            binding_for_param_spec(final(self).bindings@, param_id@) == match binding_for_param_spec(
                old(self).bindings@,
                param_id@,
            ) {
                Some((c, s, _)) => Some((c, s, encoding)),
                None => None,
            },
            old(self).well_formed() ==> final(self).well_formed(),
    {
        let i = self.position_of(param_id);
        proof {
            lemma_first_param_bounds(self.bindings@, param_id@, 0);
        }
        if i < self.bindings.len() {
            let mut b = self.bindings.remove(i);
            b.encoding = encoding;
            self.bindings.insert(i, b);
            assert(self.bindings@ =~= old(self).bindings@.update(
                i as int,
                MidiBinding { encoding, ..old(self).bindings@[i as int] },
            ));
            proof {
                let o = old(self).bindings@;
                let n = self.bindings@;
                assert forall|j: int| 0 <= j < o.len() implies (#[trigger] n[j]).param_id@ == o[j].param_id@ && n[j].channel == o[j].channel && n[j].source == o[j].source by {}
                lemma_first_param_same_ids(n, o, param_id@, 0);
                if bindings_well_formed(o) {
                    assert forall|a: int, c: int| #![trigger n[a], n[c]] 0 <= a < c < n.len() implies
                        n[a].param_id@ != n[c].param_id@ && !(n[a].channel == n[c].channel
                        && n[a].source == n[c].source) by {
                        assert(o[a] == o[a] && o[c] == o[c]);
                    }
                }
            }
            Some(encoding)
        } else {
            None
        }
    }

    /// Drop the binding for `param_id`; the last binding takes its place.
    /// Returns the removed `(channel, source)`, or `None` (table unchanged).
    pub fn forget(&mut self, param_id: &str) -> (r: Option<(u8, MidiSource)>)
        ensures
            ({
                let bs = old(self).bindings@;
                let i = first_param(bs, param_id@, 0);
                if i < bs.len() {
                    &&& r == Some((bs[i].channel, bs[i].source))
                    &&& final(self).bindings@ == bs.update(i, bs.last()).drop_last()
                } else {
                    &&& r is None
                    &&& final(self).bindings@ == bs
                }
            }),
            old(self).well_formed() ==> final(self).well_formed(),
            old(self).well_formed() ==> binding_for_param_spec(final(self).bindings@, param_id@) is None,
    {
        let i = self.position_of(param_id);
        proof {
            lemma_first_param_bounds(self.bindings@, param_id@, 0);
        }
        if i < self.bindings.len() {
            let removed = self.bindings.swap_remove(i);
            proof {
                let o = old(self).bindings@;
                let n = self.bindings@;
                let last = o.len() - 1;
                if bindings_well_formed(o) {
                    assert forall|a: int, c: int| #![trigger n[a], n[c]] 0 <= a < c < n.len() implies
                        n[a].param_id@ != n[c].param_id@ && !(n[a].channel == n[c].channel
                        && n[a].source == n[c].source) by {
                        let fa = if a == i { last } else { a };
                        let fc = if c == i { last } else { c };
                        assert(n[a] == o[fa] && n[c] == o[fc]);
                        if fa < fc {
                            assert(o[fa] == o[fa] && o[fc] == o[fc]);
                        } else {
                            assert(o[fc] == o[fc] && o[fa] == o[fa]);
                        }
                    }
                    assert forall|j: int| 0 <= j < n.len() implies (#[trigger] n[j]).param_id@ != param_id@ by {
                        let fj = if j == i { last } else { j };
                        assert(n[j] == o[fj]);
                        if fj < i {
                            assert(o[fj] == o[fj] && o[i as int] == o[i as int]);
                        } else {
                            assert(o[i as int] == o[i as int] && o[fj] == o[fj]);
                        }
                    }
                    lemma_first_param_at(n, param_id@, n.len() as int, 0);
                }
            }
            Some((removed.channel, removed.source))
        } else {
            proof {
                if bindings_well_formed(self.bindings@) {
                    lemma_first_param_at(self.bindings@, param_id@, self.bindings@.len() as int, 0);
                }
            }
            None
        }
    }

    /// Every `(channel, note)` bound to a note-on source, in table order.
    pub fn bound_notes(&self) -> (r: Vec<(u8, u8)>)
        ensures
            r@ == notes_of(self.bindings@),
    {
        let ghost bs = self.bindings@;
        let mut out: Vec<(u8, u8)> = Vec::new();
        let mut i: usize = 0;
        while i < self.bindings.len()
            invariant
                bs == self.bindings@,
                i <= bs.len(),
                out@ == notes_of(bs.take(i as int)),
            decreases bs.len() - i,
        {
            assert(bs.take(i + 1).drop_last() =~= bs.take(i as int));
            match self.bindings[i].source {
                MidiSource::NoteOn(n) => out.push((self.bindings[i].channel, n)),
                MidiSource::Cc(_) => {},
            }
            i = i + 1;
        }
        assert(bs.take(bs.len() as int) =~= bs);
        out
    }
}

// ---------------------------------------------------------------------------
// Lemmas
// ---------------------------------------------------------------------------

proof fn lemma_first_exact_at(s: Seq<MidiBinding>, channel: u8, source: MidiSource, k: int, i: int)
    requires
        0 <= i <= k <= s.len(),
        k < s.len() ==> is_exact(s[k], channel, source),
        forall|j: int| i <= j < k ==> !is_exact(#[trigger] s[j], channel, source),
    ensures
        first_exact(s, channel, source, i) == k,
    decreases k - i,
{
    if i < k {
        lemma_first_exact_at(s, channel, source, k, i + 1);
    }
}

proof fn lemma_first_param_at(s: Seq<MidiBinding>, pid: Seq<char>, k: int, i: int)
    requires
        0 <= i <= k <= s.len(),
        k < s.len() ==> s[k].param_id@ == pid,
        forall|j: int| i <= j < k ==> (#[trigger] s[j]).param_id@ != pid,
    ensures
        first_param(s, pid, i) == k,
    decreases k - i,
{
    if i < k {
        lemma_first_param_at(s, pid, k, i + 1);
    }
}

proof fn lemma_first_param_bounds(s: Seq<MidiBinding>, pid: Seq<char>, i: int)
    requires
        0 <= i <= s.len(),
    ensures
        i <= first_param(s, pid, i) <= s.len(),
        first_param(s, pid, i) < s.len() ==> s[first_param(s, pid, i)].param_id@ == pid,
        forall|j: int| i <= j < first_param(s, pid, i) ==> (#[trigger] s[j]).param_id@ != pid,
    decreases s.len() - i,
{
    if i < s.len() {
        lemma_first_param_bounds(s, pid, i + 1);
    }
}

proof fn lemma_first_param_same_ids(s1: Seq<MidiBinding>, s2: Seq<MidiBinding>, pid: Seq<char>, i: int)
    requires
        0 <= i <= s1.len(),
        s1.len() == s2.len(),
        forall|j: int| 0 <= j < s1.len() ==> (#[trigger] s1[j]).param_id@ == s2[j].param_id@,
    ensures
        first_param(s1, pid, i) == first_param(s2, pid, i),
    decreases s1.len() - i,
{
    if i < s1.len() {
        lemma_first_param_same_ids(s1, s2, pid, i + 1);
    }
}

proof fn lemma_retained(bs: Seq<MidiBinding>, channel: u8, source: MidiSource, pid: Seq<char>)
    ensures
        forall|x: MidiBinding|
            #[trigger] retained(bs, channel, source, pid).contains(x) ==> survives_bind(
                x,
                channel,
                source,
                pid,
            ) && bs.contains(x),
        bindings_well_formed(bs) ==> bindings_well_formed(retained(bs, channel, source, pid)),
    decreases bs.len(),
{
    if bs.len() > 0 {
        let front = bs.drop_last();
        lemma_retained(front, channel, source, pid);
        let rest = retained(front, channel, source, pid);
        assert forall|x: MidiBinding| #[trigger] front.contains(x) implies bs.contains(x) by {
            let j = choose|j: int| 0 <= j < front.len() && front[j] == x;
            assert(bs[j] == x);
        }
        if survives_bind(bs.last(), channel, source, pid) {
            assert forall|x: MidiBinding| #[trigger] rest.push(bs.last()).contains(x) implies survives_bind(
                x,
                channel,
                source,
                pid,
            ) && bs.contains(x) by {
                let j = choose|j: int| 0 <= j < rest.len() + 1 && rest.push(bs.last())[j] == x;
                if j < rest.len() {
                    assert(rest.contains(x));
                } else {
                    assert(bs[bs.len() - 1] == x);
                }
            }
        }
        if bindings_well_formed(bs) {
            assert(bindings_well_formed(front)) by {
                assert forall|i: int, j: int| #![trigger front[i], front[j]] 0 <= i < j < front.len() implies
                    front[i].param_id@ != front[j].param_id@ && !(
                    front[i].channel == front[j].channel && front[i].source == front[j].source) by {
                    assert(front[i] == bs[i] && front[j] == bs[j]);
                }
            }
            if survives_bind(bs.last(), channel, source, pid) {
                let r = rest.push(bs.last());
                assert forall|i: int, j: int| #![trigger r[i], r[j]] 0 <= i < j < r.len() implies
                    r[i].param_id@ != r[j].param_id@ && !(r[i].channel
                    == r[j].channel && r[i].source == r[j].source) by {
                    if j == r.len() - 1 {
                        assert(rest.contains(r[i]));
                        let k = choose|k: int| 0 <= k < front.len() && front[k] == r[i];
                        assert(bs[k] == r[i]);
                        assert(bs[bs.len() - 1] == r[j]);
                    } else {
                        assert(r[i] == rest[i] && r[j] == rest[j]);
                    }
                }
            }
        }
    }
}

proof fn lemma_push_unique_well_formed(r: Seq<MidiBinding>, nb: MidiBinding)
    requires
        bindings_well_formed(r),
        forall|x: MidiBinding| #[trigger] r.contains(x) ==> x.param_id@ != nb.param_id@ && !(x.channel
            == nb.channel && x.source == nb.source),
    ensures
        bindings_well_formed(r.push(nb)),
{
    let s = r.push(nb);
    assert forall|i: int, j: int| #![trigger s[i], s[j]] 0 <= i < j < s.len() implies s[i].param_id@
        != s[j].param_id@ && !(s[i].channel == s[j].channel && s[i].source
        == s[j].source) by {
        assert(s[i] == r[i]);
        if j == s.len() - 1 {
            assert(r.contains(r[i]));
        } else {
            assert(s[j] == r[j]);
        }
    }
}

/// Law: in a lookup, a binding on the exact channel wins over an OMNI
/// binding for the same source, wherever the two stand in the table.
pub proof fn law_lookup_prefers_exact_channel(
    bs: Seq<MidiBinding>,
    channel: u8,
    source: MidiSource,
    k: int,
)
    requires
        0 <= k < bs.len(),
        is_exact(bs[k], channel, source),
    ensures
        lookup_spec(bs, channel, source) is Some,
        exists|i: int|
            0 <= i < bs.len() && is_exact(#[trigger] bs[i], channel, source) && lookup_spec(
                bs,
                channel,
                source,
            ) == Some((bs[i].param_id@, bs[i].encoding)),
{
    lemma_first_exact_bounds(bs, channel, source, 0);
    let e = first_exact(bs, channel, source, 0);
    if e >= bs.len() {
        assert(!is_exact(bs[k], channel, source));
    }
    assert(is_exact(bs[e], channel, source));
}

pub(crate) proof fn lemma_first_exact_bounds(s: Seq<MidiBinding>, channel: u8, source: MidiSource, i: int)
    requires
        0 <= i <= s.len(),
    ensures
        i <= first_exact(s, channel, source, i) <= s.len(),
        first_exact(s, channel, source, i) < s.len() ==> is_exact(
            s[first_exact(s, channel, source, i)],
            channel,
            source,
        ),
        forall|j: int|
            i <= j < first_exact(s, channel, source, i) ==> !is_exact(#[trigger] s[j], channel, source),
    decreases s.len() - i,
{
    if i < s.len() {
        lemma_first_exact_bounds(s, channel, source, i + 1);
    }
}

pub(crate) proof fn lemma_first_omni_bounds(s: Seq<MidiBinding>, source: MidiSource, i: int)
    requires
        0 <= i <= s.len(),
    ensures
        i <= first_omni(s, source, i) <= s.len(),
        first_omni(s, source, i) < s.len() ==> is_omni(s[first_omni(s, source, i)], source),
        forall|j: int| i <= j < first_omni(s, source, i) ==> !is_omni(#[trigger] s[j], source),
    decreases s.len() - i,
{
    if i < s.len() {
        lemma_first_omni_bounds(s, source, i + 1);
    }
}

} // verus!

//! Stereo 16-bit PCM framing: channel interleaving and the AIFF container.
//!
//! AIFF is an IFF variant, all big-endian:
//!
//! ```text
//! FORM <size:u32> "AIFF"
//!     COMM <18:u32> channels:i16 frames:u32 bits:i16 rate:80-bit float
//!     SSND <size:u32> offset:u32(0) blockSize:u32(0) <interleaved samples>
//! ```

use vstd::prelude::*;

verus! {

/// Channel count written by the encoders.
pub const CHANNELS: u16 = 2;

/// Bits per sample written by the encoders.
pub const BITS: u16 = 16;

/// Largest frame count whose AIFF sizes fit the 32-bit size fields: the
/// FORM size, `46 + 4 * frames`, must not exceed `u32::MAX`.
pub const MAX_AIFF_FRAMES: usize = 1073741812;

/// Big-endian bytes of a 32-bit value.
pub open spec fn be32(v: int) -> Seq<u8> {
    seq![
        (v / 16777216 % 256) as u8,
        (v / 65536 % 256) as u8,
        (v / 256 % 256) as u8,
        (v % 256) as u8,
    ]
}

/// Big-endian two's-complement bytes of a 16-bit sample.
pub open spec fn be16(x: int) -> Seq<u8> {
    let u = if x < 0 {
        x + 65536
    } else {
        x
    };
    seq![(u / 256) as u8, (u % 256) as u8]
}

/// The 80-bit extended-precision encoding of 44100.0 used as the sample rate.
pub open spec fn rate_44100() -> Seq<u8> {
    seq![0x40u8, 0x0Eu8, 0xACu8, 0x44u8, 0u8, 0u8, 0u8, 0u8, 0u8, 0u8]
}

/// The AIFF header (everything before the sample bytes) for `frames` stereo
/// frames.
pub open spec fn aiff_header(frames: nat) -> Seq<u8> {
    let ssnd_size = 8 + 4 * frames;
    let form_size = 4 + (8 + 18) + (8 + ssnd_size);
    seq![70u8, 79u8, 82u8, 77u8] + be32(form_size as int) + seq![65u8, 73u8, 70u8, 70u8] + seq![
        67u8,
        79u8,
        77u8,
        77u8,
    ] + be32(18) + be16(2) + be32(frames as int) + be16(16) + rate_44100() + seq![
        83u8,
        83u8,
        78u8,
        68u8,
    ] + be32(ssnd_size as int) + be32(0) + be32(0)
}

/// Sample bytes of the first `k` frames: left then right, big-endian.
pub open spec fn frame_bytes(left: Seq<i16>, right: Seq<i16>, k: nat) -> Seq<u8>
    decreases k,
{
    if k == 0 {
        Seq::empty()
    } else {
        frame_bytes(left, right, (k - 1) as nat) + be16(left[k - 1] as int) + be16(
            right[k - 1] as int,
        )
    }
}

/// A complete AIFF file for the given channels.
pub open spec fn aiff_file(left: Seq<i16>, right: Seq<i16>) -> Seq<u8> {
    aiff_header(left.len()) + frame_bytes(left, right, left.len())
}

/// Left and right samples interleaved: `l0, r0, l1, r1, ...`.
pub open spec fn interleaved(left: Seq<i16>, right: Seq<i16>) -> Seq<i16> {
    Seq::new(2 * left.len(), |i: int| if i % 2 == 0 { left[i / 2] } else { right[i / 2] })
}

/// The channels of a stereo write have different lengths.
#[derive(Clone, Copy, Debug, PartialEq, Eq)]
pub struct ChannelMismatch;

fn push_be32(out: &mut Vec<u8>, v: u32)
    ensures
        final(out)@ == old(out)@ + be32(v as int),
{
    out.push((v / 16777216) as u8);
    out.push((v / 65536 % 256) as u8);
    out.push((v / 256 % 256) as u8);
    out.push((v % 256) as u8);
    assert(final(out)@ =~= old(out)@ + be32(v as int));
}

fn push_be16(out: &mut Vec<u8>, x: i16)
    ensures
        final(out)@ == old(out)@ + be16(x as int),
{
    let u: u32 = if x < 0 {
        (x as i32 + 65536) as u32
    } else {
        x as u32
    };
    out.push((u / 256) as u8);
    out.push((u % 256) as u8);
    assert(final(out)@ =~= old(out)@ + be16(x as int));
}

fn push_tag(out: &mut Vec<u8>, a: u8, b: u8, c: u8, d: u8)
    ensures
        final(out)@ == old(out)@ + seq![a, b, c, d],
{
    out.push(a);
    out.push(b);
    out.push(c);
    out.push(d);
    assert(final(out)@ =~= old(out)@ + seq![a, b, c, d]);
}

/// Interleave two channels of equal length; `Err` when the lengths differ.
pub fn interleave(left: &[i16], right: &[i16]) -> (r: Result<Vec<i16>, ChannelMismatch>)
    requires
        2 * left@.len() <= usize::MAX,
    ensures
        left@.len() == right@.len() <==> r is Ok,
        r matches Ok(v) ==> v@ == interleaved(left@, right@),
{
    if left.len() != right.len() {
        return Err(ChannelMismatch);
    }
    let mut out: Vec<i16> = Vec::new();
    let mut k: usize = 0;
    while k < left.len()
        invariant
            left@.len() == right@.len(),
            k <= left@.len(),
            out@.len() == 2 * k,
            forall|i: int|
                0 <= i < 2 * k ==> #[trigger] out@[i] == if i % 2 == 0 {
                    left@[i / 2]
                } else {
                    right@[i / 2]
                },
        decreases left@.len() - k,
    {
        out.push(left[k]);
        out.push(right[k]);
        k = k + 1;
    }
    assert(out@ =~= interleaved(left@, right@));
    Ok(out)
}

/// Encode a stereo 16-bit, 44.1 kHz AIFF file.
pub fn encode_aiff(left: &[i16], right: &[i16]) -> (r: Vec<u8>)
    requires
        left@.len() == right@.len(),
        left@.len() <= MAX_AIFF_FRAMES,
    ensures
        r@ == aiff_file(left@, right@),
{
    let frames: u32 = left.len() as u32;
    let ssnd_size: u32 = 8 + frames * 4;
    let form_size: u32 = 4 + (8 + 18) + (8 + ssnd_size);
    let mut out: Vec<u8> = Vec::new();
    push_tag(&mut out, 70, 79, 82, 77);
    push_be32(&mut out, form_size);
    push_tag(&mut out, 65, 73, 70, 70);
    push_tag(&mut out, 67, 79, 77, 77);
    push_be32(&mut out, 18);
    push_be16(&mut out, 2);
    push_be32(&mut out, frames);
    push_be16(&mut out, 16);
    push_tag(&mut out, 0x40, 0x0E, 0xAC, 0x44);
    push_be16(&mut out, 0);
    push_be32(&mut out, 0);
    push_tag(&mut out, 83, 83, 78, 68);
    push_be32(&mut out, ssnd_size);
    push_be32(&mut out, 0);
    push_be32(&mut out, 0);
    assert(be16(0) =~= seq![0u8, 0u8]);
    assert(out@ =~= aiff_header(left@.len()));
    let ghost header = out@;
    let mut k: usize = 0;
    while k < left.len()
        invariant
            left@.len() == right@.len(),
            k <= left@.len(),
            out@ == header + frame_bytes(left@, right@, k as nat),
        decreases left@.len() - k,
    {
        push_be16(&mut out, left[k]);
        push_be16(&mut out, right[k]);
        proof {
            assert(frame_bytes(left@, right@, (k + 1) as nat) == frame_bytes(left@, right@, k as nat)
                + be16(left@[k as int] as int) + be16(right@[k as int] as int));
        }
        assert(out@ =~= header + frame_bytes(left@, right@, (k + 1) as nat));
        k = k + 1;
    }
    out
}

/// Law: the size fields of an encoded file agree with its length: the FORM
/// size is the file length minus its 8-byte chunk header, and the SSND size
/// is the sample byte count plus 8.
pub proof fn law_aiff_sizes_consistent(left: Seq<i16>, right: Seq<i16>)
    requires
        left.len() == right.len(),
    ensures
        aiff_header(left.len()).len() == 54,
        frame_bytes(left, right, left.len()).len() == 4 * left.len(),
        aiff_file(left, right).len() == 8 + (4 + (8 + 18) + (8 + (8 + 4 * left.len()))),
{
    lemma_frame_bytes_len(left, right, left.len());
}

/// `MAX_AIFF_FRAMES` is the largest frame count whose FORM size fits in 32
/// bits.
pub proof fn law_max_frames_is_largest()
    ensures
        4 + (8 + 18) + (8 + (8 + 4 * MAX_AIFF_FRAMES)) <= u32::MAX,
        4 + (8 + 18) + (8 + (8 + 4 * (MAX_AIFF_FRAMES + 1))) > u32::MAX,
{
}

proof fn lemma_frame_bytes_len(left: Seq<i16>, right: Seq<i16>, k: nat)
    ensures
        frame_bytes(left, right, k).len() == 4 * k,
    decreases k,
{
    if k > 0 {
        lemma_frame_bytes_len(left, right, (k - 1) as nat);
    }
}

} // verus!

use slammer::aiff::{encode_aiff, interleave, ChannelMismatch, BITS, CHANNELS};

fn to_i16(x: f32) -> i16 {
    (x.clamp(-1.0, 1.0) * 32767.0).round() as i16
}

fn sine(n: usize, freq: f32) -> (Vec<i16>, Vec<i16>) {
    let mut l = Vec::with_capacity(n);
    let mut r = Vec::with_capacity(n);
    for i in 0..n {
        let s = (std::f32::consts::TAU * freq * i as f32 / 44_100.0).sin() * 0.5;
        l.push(to_i16(s));
        r.push(to_i16(s));
    }
    (l, r)
}

#[test]
fn aiff_header_has_expected_chunk_ids() {
    let (l, r) = sine(512, 220.0);
    let bytes = encode_aiff(&l, &r);

    assert_eq!(&bytes[0..4], b"FORM");
    assert_eq!(&bytes[8..12], b"AIFF");
    assert_eq!(&bytes[12..16], b"COMM");
    assert_eq!(u32::from_be_bytes(bytes[16..20].try_into().unwrap()), 18u32);
    let ssnd_off = 20 + 18;
    assert_eq!(&bytes[ssnd_off..ssnd_off + 4], b"SSND");
    assert_eq!(i16::from_be_bytes(bytes[20..22].try_into().unwrap()), CHANNELS as i16);
    assert_eq!(u32::from_be_bytes(bytes[22..26].try_into().unwrap()), l.len() as u32);
    assert_eq!(i16::from_be_bytes(bytes[26..28].try_into().unwrap()), BITS as i16);
    assert_eq!(&bytes[28..38], &[0x40, 0x0E, 0xAC, 0x44, 0, 0, 0, 0, 0, 0]);
}

#[test]
fn aiff_sizes_and_samples() {
    let l = vec![1i16, -1, 32767, -32768];
    let r = vec![256i16, -256, 0, 2];
    let bytes = encode_aiff(&l, &r);
    assert_eq!(bytes.len(), 54 + 16);
    assert_eq!(u32::from_be_bytes(bytes[4..8].try_into().unwrap()) as usize, bytes.len() - 8);
    assert_eq!(u32::from_be_bytes(bytes[42..46].try_into().unwrap()), 8 + 16);
    assert_eq!(&bytes[46..54], &[0u8; 8]);
    let body = &bytes[54..];
    let mut expected = Vec::new();
    for i in 0..4 {
        expected.extend_from_slice(&l[i].to_be_bytes());
        expected.extend_from_slice(&r[i].to_be_bytes());
    }
    assert_eq!(body, &expected[..]);
}

#[test]
fn empty_aiff_is_header_only() {
    let bytes = encode_aiff(&[], &[]);
    assert_eq!(bytes.len(), 54);
    assert_eq!(u32::from_be_bytes(bytes[4..8].try_into().unwrap()), 46);
}

#[test]
fn write_rejects_mismatched_channels() {
    let l = vec![0i16; 10];
    let r = vec![0i16; 12];
    assert_eq!(interleave(&l, &r), Err(ChannelMismatch));
}

#[test]
fn interleave_alternates_channels() {
    assert_eq!(interleave(&[1, 2, 3], &[-1, -2, -3]), Ok(vec![1, -1, 2, -2, 3, -3]));
}

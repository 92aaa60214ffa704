//! Tests for the run-length codec.

use notepdf::rle::{decode_rle, encode_rle};

#[test]
fn decode_length_is_always_width_times_height() {
    // Whatever the input, the output holds exactly width * height bytes.
    assert_eq!(decode_rle(&[], 7, 5).len(), 35);
    assert_eq!(decode_rle(&[0x61], 7, 5).len(), 35);
    assert_eq!(decode_rle(&[0x61, 0x00], 7, 5).len(), 35);
    assert_eq!(decode_rle(&[0x61, 0xff, 0x65, 0xff], 10, 10).len(), 100);
    let garbage: Vec<u8> = (0..=255).collect();
    assert_eq!(decode_rle(&garbage, 31, 9).len(), 279);
}

#[test]
fn decode_pads_shortfall_with_transparency() {
    // One run of 3 black pixels, then padding with the transparent code.
    let out = decode_rle(&[0x61, 0x02], 3, 2);
    assert_eq!(out, vec![0x61, 0x61, 0x61, 0x62, 0x62, 0x62]);
}

#[test]
fn decode_truncates_excess() {
    // A run of 16384 black pixels cut down to 4.
    let out = decode_rle(&[0x61, 0xff], 2, 2);
    assert_eq!(out, vec![0x61, 0x61, 0x61, 0x61]);
}

#[test]
fn decode_ignores_trailing_odd_byte() {
    let out = decode_rle(&[0x61, 0x01, 0x65], 2, 2);
    assert_eq!(out, vec![0x61, 0x61, 0x62, 0x62]);
}

#[test]
fn round_trip_of_simple_runs() {
    // Encoding with plain runs and decoding reproduces the buffer exactly.
    let mut raw: Vec<u8> = Vec::new();
    raw.extend(std::iter::repeat(0x61).take(300));
    raw.extend(std::iter::repeat(0x65).take(1));
    raw.extend(std::iter::repeat(0x9d).take(128));
    raw.extend(std::iter::repeat(0x62).take(171));
    assert_eq!(raw.len(), 600);
    let enc = encode_rle(&raw);
    assert_eq!(decode_rle(&enc, 30, 20), raw);
}

#[test]
fn round_trip_of_alternating_bytes() {
    let raw: Vec<u8> = (0..35).map(|i| if i % 2 == 0 { 0x61 } else { 0x65 }).collect();
    let enc = encode_rle(&raw);
    assert_eq!(decode_rle(&enc, 7, 5), raw);
}

#[test]
fn escape_combination_extends_the_run() {
    // (c, 0x80), (c, k) is one run of 1 + k + 128 pixels of c.
    let k = 0x33;
    let len = 129 + k as usize;
    let out = decode_rle(&[0x61, 0x80, 0x61, k], len, 1);
    assert!(out.iter().all(|&b| b == 0x61));
    assert_eq!(out.len(), len);
}

#[test]
fn escape_mismatch_resolves_the_held_run_alone() {
    // (c1, 0x80), (c2, k) with c1 != c2: 128 of c1, then k + 1 of c2.
    let k = 0x05;
    let out = decode_rle(&[0x61, 0x80, 0x65, k], 134, 1);
    assert!(out[..128].iter().all(|&b| b == 0x61));
    assert!(out[128..].iter().all(|&b| b == 0x65));
}

#[test]
fn escape_combination_takes_the_second_length_as_is() {
    // In the combining branch the second length byte is taken raw, high bit
    // and all: 1 + 0x85 + 128 = 262 pixels.
    let out = decode_rle(&[0x61, 0x80, 0x61, 0x85], 262, 1);
    assert!(out.iter().all(|&b| b == 0x61));
}

#[test]
fn mismatched_escape_reprocesses_the_pair_from_idle() {
    // After a mismatch flush the current pair goes through the idle-state
    // rules again, so a high-bit length opens a new escape: (0x65, 0x81)
    // combines with the following (0x65, 0x05) into 1 + 5 + 256 pixels.
    let out = decode_rle(&[0x61, 0x80, 0x65, 0x81, 0x65, 0x05], 400, 1);
    assert!(out[..128].iter().all(|&b| b == 0x61));
    assert!(out[128..390].iter().all(|&b| b == 0x65));
    assert!(out[390..].iter().all(|&b| b == 0x62));
}

#[test]
fn mismatched_escape_honours_the_long_run_marker() {
    // Likewise, a 0xff length after a mismatch flush is the long-run marker.
    let out = decode_rle(&[0x61, 0x80, 0x65, 0xff], 16512, 1);
    assert!(out[..128].iter().all(|&b| b == 0x61));
    assert!(out[128..].iter().all(|&b| b == 0x65));
}

#[test]
fn long_run_marker_is_16384_pixels() {
    let out = decode_rle(&[0x9d, 0xff], 128, 128);
    assert_eq!(out.len(), 16384);
    assert!(out.iter().all(|&b| b == 0x9d));
}

#[test]
fn pending_escape_at_end_of_stream_flushes_bounded() {
    // (c, 0x81) alone would mean 2 * 128 pixels on its own magnitude, but
    // only the pixels still missing are filled.
    let out = decode_rle(&[0x61, 0x81], 100, 1);
    assert_eq!(out.len(), 100);
    assert!(out.iter().all(|&b| b == 0x61));
    // With room to spare, the flush emits its full own magnitude, and the
    // rest is padded transparent.
    let out2 = decode_rle(&[0x61, 0x81], 300, 1);
    assert!(out2[..256].iter().all(|&b| b == 0x61));
    assert!(out2[256..].iter().all(|&b| b == 0x62));
}

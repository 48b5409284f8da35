use st_sync::wire::{decode, encode, MAX_WINDOW_LEN};
use std::io;

#[test]
fn encode_empty_window() {
    let bytes = encode(&[]).unwrap();
    assert_eq!(bytes, vec![0u8]);
}

#[test]
fn encode_single_frame() {
    let bytes = encode(&[0x0102_0304_0506_0708]).unwrap();
    assert_eq!(bytes, vec![1, 0x08, 0x07, 0x06, 0x05, 0x04, 0x03, 0x02, 0x01]);
}

#[test]
fn encode_multiple_frames_uses_little_endian() {
    let bytes = encode(&[1u64, 256u64]).unwrap();
    assert_eq!(
        bytes,
        vec![
            2, //
            0x01, 0x00, 0x00, 0x00, 0x00, 0x00, 0x00, 0x00, //
            0x00, 0x01, 0x00, 0x00, 0x00, 0x00, 0x00, 0x00,
        ]
    );
}

#[test]
fn roundtrip_typical_window() {
    let frames = vec![48_000u64, 72_000, 96_000, 120_000, 144_000];
    let encoded = encode(&frames).unwrap();
    let (decoded, consumed) = decode(&encoded).unwrap().unwrap();
    assert_eq!(decoded, frames);
    assert_eq!(consumed, encoded.len());
}

#[test]
fn roundtrip_max_size_window() {
    let frames: Vec<u64> = (0..MAX_WINDOW_LEN as u64).map(|i| i * 1000).collect();
    let encoded = encode(&frames).unwrap();
    let (decoded, consumed) = decode(&encoded).unwrap().unwrap();
    assert_eq!(decoded, frames);
    assert_eq!(consumed, 1 + MAX_WINDOW_LEN * 8);
}

#[test]
fn roundtrip_large_frame_values() {
    let frames = vec![48_000_000u64, 48_024_000, 48_048_000];
    let encoded = encode(&frames).unwrap();
    let (decoded, _) = decode(&encoded).unwrap().unwrap();
    assert_eq!(decoded, frames);
}

#[test]
fn encode_rejects_oversize_window() {
    let frames: Vec<u64> = (0..(MAX_WINDOW_LEN + 1) as u64).collect();
    let err = encode(&frames).unwrap_err();
    assert_eq!(err.kind(), io::ErrorKind::InvalidInput);
}

#[test]
fn decode_empty_buffer_returns_none() {
    assert!(decode(&[]).unwrap().is_none());
}

#[test]
fn decode_truncated_header_returns_none() {
    let buf = vec![3u8, 1, 0, 0, 0, 0, 0, 0, 0];
    assert!(decode(&buf).unwrap().is_none());
}

#[test]
fn decode_handles_concatenated_messages() {
    let a = encode(&[100u64, 200, 300]).unwrap();
    let b = encode(&[400u64, 500]).unwrap();
    let mut combined = a.clone();
    combined.extend_from_slice(&b);

    let (first, consumed) = decode(&combined).unwrap().unwrap();
    assert_eq!(first, vec![100u64, 200, 300]);
    assert_eq!(consumed, a.len());

    let (second, consumed2) = decode(&combined[consumed..]).unwrap().unwrap();
    assert_eq!(second, vec![400u64, 500]);
    assert_eq!(consumed2, b.len());
}

#[test]
fn encode_max_window_is_accepted_and_one_more_is_not() {
    let frames: Vec<u64> = (0..MAX_WINDOW_LEN as u64).collect();
    assert_eq!(encode(&frames).unwrap().len(), 1 + 8 * MAX_WINDOW_LEN);
    let longer: Vec<u64> = (0..(MAX_WINDOW_LEN + 1) as u64).collect();
    assert!(encode(&longer).is_err());
}

#[test]
fn encode_oversize_error_names_the_length() {
    let frames: Vec<u64> = (0..300u64).collect();
    let err = encode(&frames).unwrap_err();
    assert_eq!(err.to_string(), "window length 300 exceeds max 255");
}

#[test]
fn decode_every_proper_prefix_is_incomplete() {
    let bytes = encode(&[7u64, 8, 9]).unwrap();
    for k in 0..bytes.len() {
        assert!(decode(&bytes[..k]).unwrap().is_none());
    }
}

#[test]
fn decode_then_encode_gives_back_consumed_bytes() {
    let mut buf = vec![2u8, 0xff, 0, 0, 0, 0, 0, 0, 0, 1, 2, 3, 4, 5, 6, 7, 8, 0xaa, 0xbb];
    let (frames, consumed) = decode(&buf).unwrap().unwrap();
    assert_eq!(frames, vec![255u64, 0x0807_0605_0403_0201]);
    assert_eq!(consumed, 17);
    buf.truncate(consumed);
    assert_eq!(encode(&frames).unwrap(), buf);
}

#[test]
fn decode_empty_window_message() {
    let (frames, consumed) = decode(&[0u8, 9, 9]).unwrap().unwrap();
    assert!(frames.is_empty());
    assert_eq!(consumed, 1);
}

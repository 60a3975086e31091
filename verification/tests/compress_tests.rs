use aef::compress::{compress_round_trip, decode_data, encode_data};

const COMPRESSED: &[u8] = &[
    139, 255, 1, 0, 32, 0, 216, 0, 14, 92, 195, 73, 101, 54, 128, 11, 112, 88, 190, 109,
];

#[test]
fn encoding() {
    let buf = encode_data(&Some(1), &[0; 1024]).unwrap();
    assert_eq!(buf, COMPRESSED);
}

#[test]
fn decoding() {
    let data = decode_data(true, COMPRESSED).unwrap();
    assert_eq!(data, [0; 1024]);
}

#[test]
fn pass_through_is_identity() {
    let data = b"anything at all".to_vec();
    assert_eq!(encode_data(&None, &data).unwrap(), data);
    assert_eq!(decode_data(false, &data).unwrap(), data);
}

#[test]
fn round_trip_empty() {
    for q in [0u32, 1, 5, 11] {
        assert_eq!(compress_round_trip(Some(q), &[]).unwrap(), Vec::<u8>::new());
    }
    assert_eq!(compress_round_trip(None, &[]).unwrap(), Vec::<u8>::new());
}

#[test]
fn round_trip_arbitrary_bytes() {
    // A deterministic, poorly compressible pseudo-random buffer.
    let mut data = Vec::new();
    let mut x: u32 = 0x1234_5678;
    for _ in 0..40_000 {
        x = x.wrapping_mul(1_664_525).wrapping_add(1_013_904_223);
        data.push((x >> 24) as u8);
    }
    for q in [0u32, 2, 9] {
        assert_eq!(compress_round_trip(Some(q), &data).unwrap(), data);
    }
    assert_eq!(compress_round_trip(None, &data).unwrap(), data);
}

#[test]
fn decode_rejects_garbage() {
    assert!(decode_data(true, &[1, 2, 3, 4, 5, 6, 7, 8]).is_err());
}

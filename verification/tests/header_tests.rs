use aef::error::Error;
use aef::header::{FileHeader, KdfParams};

fn params(log_n: u8, r: u32, p: u32) -> KdfParams {
    KdfParams { log_n, r, p }
}

#[test]
fn header_layout_byte_for_byte() {
    // All-zero 64-byte salt, log_n = 10, r = 8, p = 1, no compression:
    // magic(4) + salt(64) + log_n(1) + r(4) + p(4) + flag(1) bytes, in the
    // documented field order.
    let h = FileHeader::new(vec![0u8; 64], params(10, 8, 1), false);
    let mut out = Vec::new();
    h.write_to(&mut out);
    assert_eq!(out.len(), 78);
    let mut expected = vec![0xffu8, b'A', b'E', b'F'];
    expected.extend_from_slice(&[0u8; 64]);
    expected.push(10);
    expected.extend_from_slice(&[0, 0, 0, 8]);
    expected.extend_from_slice(&[0, 0, 0, 1]);
    expected.push(0);
    assert_eq!(out, expected);
}

#[test]
fn header_round_trip() {
    let salt: Vec<u8> = (0u8..64).collect();
    let h = FileHeader::new(salt.clone(), params(12, 4, 2), true);
    let mut out = Vec::new();
    h.write_to(&mut out);
    let g = FileHeader::read_from(&out).unwrap();
    assert_eq!(g.salt, salt);
    assert_eq!(g.params, params(12, 4, 2));
    assert!(g.compress);
}

#[test]
fn header_rejects_wrong_magic() {
    let h = FileHeader::new(vec![0u8; 64], params(10, 8, 1), false);
    let mut out = Vec::new();
    h.write_to(&mut out);
    out[0] = 0x7f;
    assert!(matches!(FileHeader::read_from(&out), Err(Error::Io)));
}

#[test]
fn header_rejects_truncation() {
    let h = FileHeader::new(vec![0u8; 64], params(10, 8, 1), false);
    let mut out = Vec::new();
    h.write_to(&mut out);
    assert!(matches!(FileHeader::read_from(&out[..77]), Err(Error::Io)));
}

#[test]
fn header_rejects_invalid_parameters() {
    let h = FileHeader::new(vec![0u8; 64], params(10, 0, 1), false);
    let mut out = Vec::new();
    h.write_to(&mut out);
    assert!(matches!(FileHeader::read_from(&out), Err(Error::Io)));
}

#[test]
fn parameter_validity() {
    assert!(params(10, 8, 1).check());
    assert!(params(1, 1, 1).check());
    assert!(!params(0, 8, 1).check());
    assert!(!params(64, 8, 1).check());
    assert!(!params(10, 0, 1).check());
    assert!(!params(10, 8, 0).check());
    // r * p reaches the scrypt bound.
    assert!(!params(10, 0x2000_0000, 2).check());
    // The working memory 128 * r * 2^log_n would not be addressable.
    assert!(!params(63, 8, 1).check());
}

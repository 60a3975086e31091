use aef::crypto::{rand_salt, Cipher};
use aef::error::Error;
use aef::header::KdfParams;

fn fast_params() -> KdfParams {
    KdfParams { log_n: 4, r: 8, p: 1 }
}

fn cipher(password: &str, salt: &[u8]) -> Cipher {
    Cipher::new(password, salt, &fast_params())
}

#[test]
fn random_salt_is_64_bytes() {
    assert_eq!(rand_salt().len(), 64);
}

#[test]
fn empty_chunk_is_the_bare_terminator() {
    let c = cipher("pw", &[1u8; 64]);
    let mut out = Vec::new();
    c.write_chunk(&mut out, Vec::new()).unwrap();
    assert_eq!(out, vec![0u8, 0u8]);
}

#[test]
fn chunk_framing_length() {
    let c = cipher("pw", &[1u8; 64]);
    for n in [1usize, 2, 100, 8192, 65519] {
        let mut out = Vec::new();
        c.write_chunk(&mut out, vec![0xabu8; n]).unwrap();
        assert_eq!(out.len(), 2 + 12 + n + 16);
    }
}

#[test]
fn chunk_round_trip() {
    let c = cipher("pw", &[1u8; 64]);
    let data = b"the quick brown fox".to_vec();
    let mut out = Vec::new();
    c.write_chunk(&mut out, data.clone()).unwrap();
    let mut pos = 0usize;
    let got = c.read_chunk(&out, &mut pos).unwrap().unwrap();
    assert_eq!(got, data);
    assert_eq!(pos, out.len());
}

#[test]
fn terminator_reads_as_empty_payload() {
    let c = cipher("pw", &[1u8; 64]);
    let input = vec![0u8, 0u8, 9u8];
    let mut pos = 0usize;
    let got = c.read_chunk(&input, &mut pos).unwrap().unwrap();
    assert!(got.is_empty());
    assert_eq!(pos, 2);
}

#[test]
fn end_of_input_is_none() {
    let c = cipher("pw", &[1u8; 64]);
    let mut pos = 0usize;
    assert!(c.read_chunk(&Vec::new(), &mut pos).is_none());
    let one = vec![7u8];
    let mut pos1 = 0usize;
    assert!(c.read_chunk(&one, &mut pos1).is_none());
}

#[test]
fn tampering_fails_decryption() {
    let c = cipher("pw", &[1u8; 64]);
    let mut out = Vec::new();
    c.write_chunk(&mut out, b"secret".to_vec()).unwrap();
    let last = out.len() - 1;
    out[last] ^= 1;
    let mut pos = 0usize;
    assert!(matches!(c.read_chunk(&out, &mut pos), Some(Err(Error::Aes))));
}

#[test]
fn wrong_password_fails_decryption() {
    let c1 = cipher("correct horse", &[1u8; 64]);
    let c2 = cipher("battery staple", &[1u8; 64]);
    let mut out = Vec::new();
    c1.write_chunk(&mut out, b"secret".to_vec()).unwrap();
    let mut pos = 0usize;
    assert!(matches!(c2.read_chunk(&out, &mut pos), Some(Err(Error::Aes))));
}

#[test]
fn truncated_chunk_is_an_io_error() {
    let c = cipher("pw", &[1u8; 64]);
    let mut out = Vec::new();
    c.write_chunk(&mut out, b"secret".to_vec()).unwrap();
    out.truncate(out.len() - 3);
    let mut pos = 0usize;
    assert!(matches!(c.read_chunk(&out, &mut pos), Some(Err(Error::Io))));
}

#[test]
fn derivation_is_deterministic_and_salt_sensitive() {
    let c1 = cipher("pw", &[2u8; 64]);
    let c2 = cipher("pw", &[2u8; 64]);
    let c3 = cipher("pw", &[3u8; 64]);
    let mut out = Vec::new();
    c1.write_chunk(&mut out, b"payload".to_vec()).unwrap();
    let mut pos = 0usize;
    assert_eq!(c2.read_chunk(&out, &mut pos).unwrap().unwrap(), b"payload");
    let mut pos3 = 0usize;
    assert!(matches!(c3.read_chunk(&out, &mut pos3), Some(Err(Error::Aes))));
}

use aef::archive::{archive_round_trip_tree, Decoder, Encoder};
use aef::entry::FileType;
use aef::error::{Error, RelativePathError};
use aef::header::KdfParams;

fn fast_params() -> KdfParams {
    KdfParams { log_n: 4, r: 8, p: 1 }
}

fn build_archive(password: &str, compress: Option<u32>) -> Vec<u8> {
    let mut enc = Encoder::new(password, fast_params(), compress).unwrap();
    enc.append_directory("tree", Some(0o755)).unwrap();
    enc.append_file("tree/hello.txt", Some(0o644), b"hello archive").unwrap();
    enc.append_file("tree/empty", None, b"").unwrap();
    enc.finish()
}

fn decode_all(archive: Vec<u8>, password: &str) -> Vec<(FileType, Option<u32>, String, Vec<u8>)> {
    let mut dec = Decoder::new(archive, password).unwrap();
    let mut out = Vec::new();
    loop {
        let entry = match dec.read_entry() {
            None => break,
            Some(r) => r.unwrap(),
        };
        let mut data = Vec::new();
        if entry.filetype.is_file() {
            dec.read_data_to(&mut data).unwrap();
        }
        out.push((entry.filetype, entry.permissions, entry.path.to_path_buf(), data));
    }
    dec.finish();
    out
}

#[test]
fn round_trip_plain() {
    let archive = build_archive("a strong password", None);
    let members = decode_all(archive, "a strong password");
    assert_eq!(members.len(), 3);
    assert_eq!(members[0], (FileType::Directory, Some(0o755), "tree".to_string(), Vec::new()));
    assert_eq!(
        members[1],
        (FileType::File, Some(0o644), "tree/hello.txt".to_string(), b"hello archive".to_vec())
    );
    assert_eq!(members[2], (FileType::File, None, "tree/empty".to_string(), Vec::new()));
}

#[test]
fn round_trip_compressed() {
    let archive = build_archive("pw", Some(5));
    let members = decode_all(archive, "pw");
    assert_eq!(members.len(), 3);
    assert_eq!(members[1].3, b"hello archive".to_vec());
    assert_eq!(members[2].3, Vec::<u8>::new());
}

#[test]
fn round_trip_large_file_spans_chunks() {
    let mut content = Vec::new();
    let mut x: u32 = 99;
    for _ in 0..30_000 {
        x = x.wrapping_mul(1_664_525).wrapping_add(1_013_904_223);
        content.push((x >> 16) as u8);
    }
    let mut enc = Encoder::new("pw", fast_params(), None).unwrap();
    enc.append_file("big.bin", None, &content).unwrap();
    let archive = enc.finish();
    let members = decode_all(archive, "pw");
    assert_eq!(members.len(), 1);
    assert_eq!(members[0].3, content);
}

#[test]
fn wrong_password_fails_with_decryption_error() {
    let archive = build_archive("right", None);
    let mut dec = Decoder::new(archive, "wrong").unwrap();
    assert!(matches!(dec.read_entry(), Some(Err(Error::Aes))));
}

#[test]
fn tampered_archive_fails_decryption() {
    let mut enc = Encoder::new("pw", fast_params(), None).unwrap();
    enc.append_file("f", None, b"hello tamper").unwrap();
    let mut archive = enc.finish();
    // Header (78), entry chunk (2 + 12 + 6 + 16 = 36), then the data
    // chunk: flip a ciphertext byte inside it.
    archive[78 + 36 + 20] ^= 0x80;
    let mut dec = Decoder::new(archive, "pw").unwrap();
    dec.read_entry().unwrap().unwrap();
    let mut sink = Vec::new();
    assert!(matches!(dec.read_data_to(&mut sink), Err(Error::Aes)));
}

#[test]
fn not_an_archive_is_rejected() {
    assert!(matches!(Decoder::new(b"PK\x03\x04 something".to_vec(), "pw"), Err(Error::Io)));
    assert!(matches!(Decoder::new(Vec::new(), "pw"), Err(Error::Io)));
}

#[test]
fn empty_file_is_entry_plus_terminator() {
    let mut enc = Encoder::new("pw", fast_params(), None).unwrap();
    enc.append_file("empty", None, b"").unwrap();
    let archive = enc.finish();
    // Header, one entry chunk of 5 + 5 path bytes, one bare terminator.
    let entry_payload = 1 + 4 + 5;
    assert_eq!(archive.len(), 78 + (2 + 12 + entry_payload + 16) + 2);
    assert_eq!(&archive[archive.len() - 2..], &[0, 0]);
}

#[test]
fn bad_member_path_is_reported() {
    let mut enc = Encoder::new("pw", fast_params(), None).unwrap();
    assert!(matches!(
        enc.append_directory("..", None),
        Err(Error::Path(RelativePathError::Empty))
    ));
    assert!(matches!(
        enc.append_file("a\\b", None, b"x"),
        Err(Error::Path(RelativePathError::Invalid))
    ));
}

#[test]
fn normalized_paths_round_trip_through_archives() {
    let mut enc = Encoder::new("pw", fast_params(), None).unwrap();
    enc.append_file("x/../caf\u{e9}/./f", None, b"1").unwrap();
    let archive = enc.finish();
    let members = decode_all(archive, "pw");
    assert_eq!(members[0].2, "caf\u{e9}/f");
}

#[test]
fn archive_ends_cleanly() {
    let archive = build_archive("pw", None);
    let mut dec = Decoder::new(archive, "pw").unwrap();
    for _ in 0..3 {
        let e = dec.read_entry().unwrap().unwrap();
        if e.filetype.is_file() {
            let mut sink = Vec::new();
            dec.read_data_to(&mut sink).unwrap();
        }
    }
    assert!(dec.read_entry().is_none());
}

#[test]
fn tree_round_trip_function_agrees() {
    let members: Vec<(FileType, String, Option<u32>, Vec<u8>)> = vec![
        (FileType::Directory, "top".to_string(), Some(0o755), Vec::new()),
        (FileType::File, "top/a.txt".to_string(), Some(0o644), b"first".to_vec()),
        (FileType::Directory, "top/sub".to_string(), None, Vec::new()),
        (FileType::File, "top/sub/empty".to_string(), None, Vec::new()),
        (FileType::File, "top/sub/b.bin".to_string(), Some(0o600), vec![7u8; 20_000]),
    ];
    let out = archive_round_trip_tree("pw", fast_params(), Some(3), &members).unwrap();
    assert_eq!(out.len(), members.len());
    for (got, want) in out.iter().zip(members.iter()) {
        assert_eq!(got.0.filetype, want.0);
        assert_eq!(got.0.permissions, want.2);
        if want.0.is_file() {
            assert_eq!(got.1, want.3);
        } else {
            assert!(got.1.is_empty());
        }
    }
}

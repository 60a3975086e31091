use aef::error::RelativePathError;
use aef::path::RelativePath;

#[test]
fn parent_dir_pops() {
    let p = RelativePath::new("a/../b").unwrap();
    assert_eq!(p.to_path_buf(), "b");
}

#[test]
fn cur_dir_vanishes() {
    let p = RelativePath::new("./a").unwrap();
    assert_eq!(p.to_path_buf(), "a");
}

#[test]
fn all_parent_dirs_is_empty() {
    assert!(matches!(RelativePath::new("../.."), Err(RelativePathError::Empty)));
    assert!(matches!(RelativePath::new(".."), Err(RelativePathError::Empty)));
}

#[test]
fn empty_path_is_empty() {
    assert!(matches!(RelativePath::new(""), Err(RelativePathError::Empty)));
    assert!(matches!(RelativePath::new("."), Err(RelativePathError::Empty)));
    assert!(matches!(RelativePath::new("///"), Err(RelativePathError::Empty)));
}

#[test]
fn nul_byte_is_invalid() {
    assert!(matches!(RelativePath::new("a\u{0}b"), Err(RelativePathError::Invalid)));
}

#[test]
fn control_character_is_invalid() {
    assert!(matches!(RelativePath::new("a\u{7}b"), Err(RelativePathError::Invalid)));
    assert!(matches!(RelativePath::new("a\u{1f}b"), Err(RelativePathError::Invalid)));
}

#[test]
fn backslash_is_invalid() {
    assert!(matches!(RelativePath::new("a\\b"), Err(RelativePathError::Invalid)));
}

#[test]
fn unicode_separator_is_invalid_but_space_is_not() {
    assert!(matches!(RelativePath::new("a\u{2028}b"), Err(RelativePathError::Invalid)));
    assert!(matches!(RelativePath::new("a\u{a0}b"), Err(RelativePathError::Invalid)));
    assert!(RelativePath::new("a b").is_ok());
}

#[test]
fn all_space_component_is_invalid() {
    assert!(matches!(RelativePath::new("   "), Err(RelativePathError::Invalid)));
}

#[test]
fn composed_and_decomposed_serialize_identically() {
    // U+00E9 versus e + U+0301: canonically equivalent.
    let composed = RelativePath::new("caf\u{e9}").unwrap();
    let decomposed = RelativePath::new("cafe\u{301}").unwrap();
    assert_eq!(composed.to_bytes(), decomposed.to_bytes());
}

#[test]
fn leading_root_is_dropped() {
    let p = RelativePath::new("/etc/passwd").unwrap();
    assert_eq!(p.to_path_buf(), "etc/passwd");
}

#[test]
fn traversal_cannot_escape() {
    // Lexical resolution absorbs excess `..` pieces instead of escaping.
    let p = RelativePath::new("../../a/../b/c").unwrap();
    assert_eq!(p.to_path_buf(), "b/c");
}

#[test]
fn stored_form_round_trips() {
    let p = RelativePath::new("some dir/nested/file.txt").unwrap();
    let bytes = p.to_bytes();
    // The private separator 0x1f joins the components.
    assert_eq!(bytes.iter().filter(|&&b| b == 0x1f).count(), 2);
    let q = RelativePath::from_bytes(&bytes).unwrap();
    assert_eq!(q.to_path_buf(), "some dir/nested/file.txt");
    assert_eq!(q.to_bytes(), bytes);
}

#[test]
fn from_bytes_rejects_bad_text_and_bad_components() {
    assert!(matches!(RelativePath::from_bytes(&[0xff, 0xfe]), Err(RelativePathError::Invalid)));
    assert!(matches!(RelativePath::from_bytes(b"a\\b"), Err(RelativePathError::Invalid)));
    assert!(matches!(RelativePath::from_bytes(b""), Err(RelativePathError::Empty)));
}

#[test]
fn from_bytes_revalidates_traversal() {
    // A malicious archive cannot smuggle `..` components through.
    let q = RelativePath::from_bytes(b"..\x1fb").unwrap();
    assert_eq!(q.to_path_buf(), "b");
    assert!(matches!(RelativePath::from_bytes(b"..\x1f.."), Err(RelativePathError::Empty)));
}

#[test]
fn edge_spaces_survive_but_must_not_be_everything() {
    // Trimming guards the check only; the stored component keeps its ends.
    let p = RelativePath::new("a/ b ").unwrap();
    assert_eq!(p.to_path_buf(), "a/ b ");
    let q = RelativePath::from_bytes(&p.to_bytes()).unwrap();
    assert_eq!(q.to_path_buf(), "a/ b ");
}

#[test]
fn repeated_separators_collapse() {
    let p = RelativePath::new("a//b///c").unwrap();
    assert_eq!(p.to_path_buf(), "a/b/c");
}

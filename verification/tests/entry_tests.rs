use aef::entry::{FileEntry, FileType};
use aef::error::{Error, RelativePathError};
use aef::path::RelativePath;

#[test]
fn entry_round_trip() {
    let path = RelativePath::new("dir/file.txt").unwrap();
    let entry = FileEntry::new(FileType::File, path, Some(0o644));
    let bytes = entry.into_vec();
    assert_eq!(bytes[0], 1);
    let back = FileEntry::from_vec(bytes).unwrap();
    assert_eq!(back.filetype, FileType::File);
    assert_eq!(back.permissions, Some(0o644));
    assert_eq!(back.path.to_path_buf(), "dir/file.txt");
}

#[test]
fn directory_tag_is_zero() {
    let path = RelativePath::new("d").unwrap();
    let entry = FileEntry::new(FileType::Directory, path, None);
    let bytes = entry.into_vec();
    assert_eq!(bytes[0], 0);
    let back = FileEntry::from_vec(bytes).unwrap();
    assert_eq!(back.filetype, FileType::Directory);
}

#[test]
fn no_permissions_encode_as_zero_word() {
    let path = RelativePath::new("f").unwrap();
    let entry = FileEntry::new(FileType::File, path, None);
    let bytes = entry.into_vec();
    assert_eq!(&bytes[1..5], &[0, 0, 0, 0]);
    assert_eq!(FileEntry::from_vec(bytes).unwrap().permissions, None);
}

#[test]
fn zero_permissions_collapse_to_none() {
    // The sentinel: a real bitmask of exactly 0 is unrepresentable.
    let path = RelativePath::new("f").unwrap();
    let entry = FileEntry::new(FileType::File, path, Some(0));
    let back = FileEntry::from_vec(entry.into_vec()).unwrap();
    assert_eq!(back.permissions, None);
}

#[test]
fn short_record_is_an_entry_error() {
    assert!(matches!(FileEntry::from_vec(vec![1, 0, 0, 0, 0]), Err(Error::Entry)));
    assert!(matches!(FileEntry::from_vec(Vec::new()), Err(Error::Entry)));
}

#[test]
fn unknown_tag_is_an_entry_error() {
    assert!(matches!(FileEntry::from_vec(vec![2, 0, 0, 0, 0, b'a']), Err(Error::Entry)));
}

#[test]
fn bad_stored_path_is_a_path_error() {
    let bytes = vec![1, 0, 0, 0, 0, b'a', b'\\', b'b'];
    assert!(matches!(FileEntry::from_vec(bytes), Err(Error::Path(RelativePathError::Invalid))));
}

#[test]
fn is_file_distinguishes_the_kinds() {
    assert!(FileType::File.is_file());
    assert!(!FileType::Directory.is_file());
}

//! The fixed binary record that describes one archive member.
//!
//! Layout: one byte of file type tag, four big-endian bytes of permission
//! bitmask (0 meaning "none recorded"), and the stored path bytes.

use vstd::prelude::*;
use vstd::utf8::{decode_utf8, encode_utf8, encode_utf8_decode_utf8};
use crate::error::Error;
use crate::path::{RelativePath, spec_path_from_bytes, spec_join, spec_comps_ok,
    lemma_components_round_trip};
use crate::wire::{spec_be32, spec_be32_val, push_be32, be32_val, lemma_be32_round_trip};

verus! {

/// The kind of an archive member.
#[derive(Debug, PartialEq, Eq, Structural, Clone, Copy)]
pub enum FileType {
    Directory,
    File,
}

impl FileType {
    /// The wire tag of this kind.
    pub open spec fn spec_byte(self) -> u8 {
        match self {
            FileType::Directory => 0,
            FileType::File => 1,
        }
    }

    fn into_byte(self) -> (r: u8)
        ensures
            r == self.spec_byte(),
    {
        match self {
            FileType::Directory => 0,
            FileType::File => 1,
        }
    }

    fn from_byte(byte: u8) -> (r: Result<FileType, Error>)
        ensures
            match r {
                Ok(t) => t.spec_byte() == byte,
                Err(e) => e == Error::Entry && byte != 0 && byte != 1,
            },
    {
        match byte {
            0 => Ok(FileType::Directory),
            1 => Ok(FileType::File),
            _ => Err(Error::Entry),
        }
    }

    /// Whether a member of this kind carries data chunks after its entry.
    pub fn is_file(&self) -> (r: bool)
        ensures
            r == (*self == FileType::File),
    {
        match self {
            FileType::File => true,
            FileType::Directory => false,
        }
    }
}

/// The permission word written to the wire: 0 stands for "none recorded",
/// so a real bitmask of exactly 0 is unrepresentable.
pub open spec fn spec_perm_word(p: Option<u32>) -> u32 {
    match p {
        None => 0,
        Some(v) => v,
    }
}

/// The permissions read back from a wire word.
pub open spec fn spec_perm_of_word(w: u32) -> Option<u32> {
    if w == 0 {
        None
    } else {
        Some(w)
    }
}

/// The serialized record: tag, permission word, stored path bytes.
pub open spec fn spec_entry_bytes(t: FileType, perm: Option<u32>, path_inner: Seq<char>) -> Seq<
    u8,
> {
    seq![t.spec_byte()] + spec_be32(spec_perm_word(perm)) + encode_utf8(path_inner)
}

/// What parsing an entry record yields: the tag, the permissions and the
/// path components, or the error the record deserves.  A record needs at
/// least six bytes: tag, permission word, and one path byte.
pub open spec fn spec_parse_entry(bytes: Seq<u8>) -> Result<
    (FileType, Option<u32>, Seq<Seq<char>>),
    Error,
> {
    if bytes.len() < 6 {
        Err(Error::Entry)
    } else if bytes[0] != 0 && bytes[0] != 1 {
        Err(Error::Entry)
    } else {
        let t = if bytes[0] == 0 {
            FileType::Directory
        } else {
            FileType::File
        };
        let w = spec_be32_val(bytes[1], bytes[2], bytes[3], bytes[4]);
        match spec_path_from_bytes(bytes.skip(5)) {
            Ok(cs) => Ok((t, spec_perm_of_word(w), cs)),
            Err(pe) => Err(Error::Path(pe)),
        }
    }
}

/// One archive member's metadata.
#[derive(Debug)]
pub struct FileEntry {
    pub filetype: FileType,
    pub permissions: Option<u32>,
    pub path: RelativePath,
}

/// A non-empty character sequence encodes to at least one byte.
proof fn lemma_encode_utf8_nonempty(chars: Seq<char>)
    requires
        chars.len() > 0,
    ensures
        encode_utf8(chars).len() > 0,
{
    if encode_utf8(chars).len() == 0 {
        encode_utf8_decode_utf8(chars);
        assert(decode_utf8(encode_utf8(chars)).len() == 0);
    }
}

impl FileEntry {
    pub fn new(filetype: FileType, path: RelativePath, permissions: Option<u32>) -> (r: FileEntry)
        ensures
            r.filetype == filetype,
            r.path == path,
            r.permissions == permissions,
    {
        FileEntry { filetype, path, permissions }
    }

    /// Serializes the record.
    pub fn into_vec(self) -> (r: Vec<u8>)
        ensures
            r@ == spec_entry_bytes(self.filetype, self.permissions, self.path.spec_inner()),
    {
        let mut data: Vec<u8> = Vec::new();
        data.push(self.filetype.into_byte());
        let word = match self.permissions {
            None => 0,
            Some(v) => v,
        };
        push_be32(&mut data, word);
        let mut pb = self.path.to_bytes();
        data.append(&mut pb);
        assert(data@ =~= spec_entry_bytes(self.filetype, self.permissions, self.path.spec_inner()));
        data
    }

    /// Deserializes a record, re-validating the stored path in full.
    pub fn from_vec(bytes: Vec<u8>) -> (r: Result<FileEntry, Error>)
        ensures
            match (r, spec_parse_entry(bytes@)) {
                (Ok(e), Ok((t, pm, cs))) => {
                    &&& e.filetype == t
                    &&& e.permissions == pm
                    &&& e.path.wf()
                    &&& e.path.components() == cs
                    &&& e.path.spec_inner() == spec_join(cs)
                },
                (Err(e1), Err(e2)) => e1 == e2,
                _ => false,
            },
    {
        if bytes.len() < 6 {
            return Err(Error::Entry);
        }
        let filetype = match FileType::from_byte(bytes[0]) {
            Ok(t) => t,
            Err(e) => {
                return Err(e);
            },
        };
        let word = be32_val(bytes[1], bytes[2], bytes[3], bytes[4]);
        let permissions = if word == 0 {
            None
        } else {
            Some(word)
        };
        let tail = vstd::slice::slice_subrange(bytes.as_slice(), 5, bytes.len());
        assert(tail@ =~= bytes@.skip(5));
        let path = match RelativePath::from_bytes(tail) {
            Ok(p) => p,
            Err(pe) => {
                return Err(Error::Path(pe));
            },
        };
        proof {
            path.lemma_wf();
        }
        Ok(FileEntry { filetype, permissions, path })
    }
}

/// Round trip: parsing the serialized record built from valid resolved
/// path components yields the same tag, the same components, and the
/// permissions up to the sentinel — `Some(0)` cannot be told apart from
/// "none recorded".
pub proof fn lemma_entry_round_trip(t: FileType, perm: Option<u32>, cs: Seq<Seq<char>>)
    requires
        cs.len() > 0,
        spec_comps_ok(cs),
    ensures
        spec_parse_entry(spec_entry_bytes(t, perm, spec_join(cs))) == Ok::<_, Error>(
            (t, spec_perm_of_word(spec_perm_word(perm)), cs),
        ),
        perm != Some(0u32) ==> spec_perm_of_word(spec_perm_word(perm)) == perm,
{
    let bytes = spec_entry_bytes(t, perm, spec_join(cs));
    lemma_components_round_trip(cs);
    lemma_encode_utf8_nonempty(spec_join(cs));
    assert(bytes.len() >= 6);
    assert(bytes.skip(5) =~= encode_utf8(spec_join(cs)));
    lemma_be32_round_trip(spec_perm_word(perm));
    assert(bytes[1] == spec_be32(spec_perm_word(perm))[0]);
    assert(bytes[2] == spec_be32(spec_perm_word(perm))[1]);
    assert(bytes[3] == spec_be32(spec_perm_word(perm))[2]);
    assert(bytes[4] == spec_be32(spec_perm_word(perm))[3]);
    assert(bytes[0] == t.spec_byte());
}

/// The same round trip stated for a well-formed [`RelativePath`].
pub proof fn lemma_entry_path_round_trip(t: FileType, perm: Option<u32>, p: RelativePath)
    requires
        p.wf(),
    ensures
        spec_parse_entry(spec_entry_bytes(t, perm, p.spec_inner())) == Ok::<_, Error>(
            (t, spec_perm_of_word(spec_perm_word(perm)), p.components()),
        ),
{
    p.lemma_wf();
    lemma_entry_round_trip(t, perm, p.components());
}

} // verus!

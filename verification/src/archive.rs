//! The archive read/write protocol.
//!
//! Stream shape: header, then for every member one encrypted entry chunk,
//! followed — for a file — by its data chunks and a terminator.  There is
//! no in-band flag saying what comes next: the caller knows from the entry
//! it just decoded whether data chunks follow, and misuse desynchronizes
//! the stream.

use vstd::prelude::*;
use vstd::string::StringSliceAdditionalSpecFns;
use crate::compress::{encode_data, decode_data, spec_encoded, brotli_of};
use crate::crypto::{Cipher, rand_salt, scrypt_key_of, seal_of, spec_chunk_frame, spec_terminator,
    MAX_CHUNK_LEN};
use crate::entry::{FileEntry, FileType, spec_entry_bytes, spec_parse_entry, spec_perm_word,
    spec_perm_of_word, lemma_entry_round_trip};
use crate::error::Error;
use crate::header::{FileHeader, KdfParams, spec_header_bytes, spec_parse_header,
    lemma_header_round_trip, HEADER_LEN};
use crate::path::{RelativePath, spec_parse_path, spec_join, spec_comps_ok};
use crate::wire::{spec_be16_val, lemma_be16_round_trip, lemma_be16_inverse};

verus! {

/// Size of the fixed buffer a file's content is chunked by.
pub const BUF_SIZE: usize = 8 * 1024;

/// One framed chunk carrying `payload` stands at `pos` in `bytes`, sealed
/// under `key` with `nonce`.
pub open spec fn spec_frame_at(
    key: Seq<u8>,
    bytes: Seq<u8>,
    pos: int,
    nonce: Seq<u8>,
    payload: Seq<u8>,
) -> bool {
    &&& 0 <= pos
    &&& payload.len() <= 65519
    &&& nonce.len() == 12
    &&& seal_of(key, nonce, payload).len() == payload.len() + 16
    &&& pos + 30 + payload.len() <= bytes.len()
    &&& bytes.subrange(pos, pos + 30 + payload.len()) == spec_chunk_frame(key, nonce, payload)
}

/// How many data chunks content of this length fills.
pub open spec fn spec_chunk_count(len: nat) -> nat
    decreases len,
{
    if len == 0 {
        0
    } else if len > 8192 {
        1 + spec_chunk_count((len - 8192) as nat)
    } else {
        1
    }
}

/// The size of the next chunk cut from `len` remaining bytes.
pub open spec fn spec_cut(len: nat) -> int {
    if len > 8192 {
        8192
    } else {
        len as int
    }
}

/// The data chunks of a file's encoded content, each sealed under its own
/// nonce: full buffers first, then what is left.
pub open spec fn spec_data_chunks(key: Seq<u8>, nonces: Seq<Seq<u8>>, data: Seq<u8>) -> Seq<u8>
    decreases data.len(),
{
    if data.len() == 0 {
        Seq::empty()
    } else {
        let sz = spec_cut(data.len());
        spec_chunk_frame(key, nonces[0], data.take(sz)) + spec_data_chunks(
            key,
            nonces.drop_first(),
            data.skip(sz),
        )
    }
}

/// Every chunk's nonce and seal have their proper lengths.
pub open spec fn spec_frames_wf(key: Seq<u8>, nonces: Seq<Seq<u8>>, data: Seq<u8>) -> bool
    decreases data.len(),
{
    if data.len() == 0 {
        true
    } else {
        let sz = spec_cut(data.len());
        &&& nonces[0].len() == 12
        &&& seal_of(key, nonces[0], data.take(sz)).len() == sz + 16
        &&& spec_frames_wf(key, nonces.drop_first(), data.skip(sz))
    }
}

/// A whole chunked-and-terminated data stream for `data` stands at `pos`
/// in `bytes`.
pub open spec fn spec_chunks_at(
    key: Seq<u8>,
    bytes: Seq<u8>,
    pos: int,
    nonces: Seq<Seq<u8>>,
    data: Seq<u8>,
) -> bool {
    let body = spec_data_chunks(key, nonces, data) + spec_terminator();
    &&& 0 <= pos
    &&& pos + body.len() <= bytes.len()
    &&& bytes.subrange(pos, pos + body.len()) == body
    &&& nonces.len() == spec_chunk_count(data.len())
    &&& spec_frames_wf(key, nonces, data)
}

/// An archive write session: owns the output buffer and the cipher.
pub struct Encoder {
    output: Vec<u8>,
    cipher: Cipher,
    compress: Option<u32>,
}

impl Encoder {
    /// The bytes written so far.
    pub closed spec fn out(self) -> Seq<u8> {
        self.output@
    }

    /// The derived session key.
    pub closed spec fn key(self) -> Seq<u8> {
        self.cipher.spec_key()
    }

    /// The chosen compression, fixed for the session.
    pub closed spec fn compression(self) -> Option<u32> {
        self.compress
    }

    /// A live session: a usable cipher and an acceptable quality level.
    pub open spec fn wf(self) -> bool {
        &&& self.key().len() == 32
        &&& self.compression() matches Some(q) ==> q <= 11
    }

    /// Opens an archive: draws a random salt, writes the header, derives
    /// the cipher from the password.
    pub fn new(password: &str, params: KdfParams, compress: Option<u32>) -> (r: Result<
        Encoder,
        Error,
    >)
        requires
            params.valid(),
            compress matches Some(q) ==> q <= 11,
        ensures
            r matches Ok(enc) ==> {
                &&& enc.wf()
                &&& enc.compression() == compress
                &&& exists|salt: Seq<u8>|
                    #![auto]
                    salt.len() == 64 && enc.out() == spec_header_bytes(
                        salt,
                        params,
                        compress is Some,
                    ) && enc.key() == scrypt_key_of(password.spec_bytes(), salt, params)
            },
            r is Ok,
    {
        let salt = rand_salt();
        let mut output: Vec<u8> = Vec::new();
        let header = FileHeader::new(salt, params, compress.is_some());
        header.write_to(&mut output);
        let cipher = Cipher::new(password, header.salt.as_slice(), &params);
        let enc = Encoder { output, cipher, compress };
        proof {
            assert(enc.out() =~= spec_header_bytes(header.salt@, params, compress is Some));
        }
        Ok(enc)
    }

    /// Ends the session: wipes the key from memory and hands the finished
    /// archive back.  Every exit path of a session should pass through
    /// here — the wipe cannot ride on a destructor with a contract.
    pub fn finish(self) -> (r: Vec<u8>)
        ensures
            r@ == self.out(),
    {
        let Encoder { output, mut cipher, compress: _ } = self;
        cipher.wipe();
        output
    }

    /// Builds the entry record for one member, or the error the path
    /// deserves; a record too large for one chunk is refused.
    fn build_entry(
        &self,
        filetype: FileType,
        path: &str,
        permissions: Option<u32>,
    ) -> (r: Result<Vec<u8>, Error>)
        ensures
            match r {
                Ok(ev) => spec_parse_path(path@, false) matches Ok(cs) && cs.len() > 0
                    && spec_comps_ok(cs) && ev@ == spec_entry_bytes(
                    filetype,
                    permissions,
                    spec_join(cs),
                ) && ev@.len() <= 65519,
                Err(e) => match e {
                    Error::Path(pe) => spec_parse_path(path@, false) matches Err(pe2) && pe == pe2,
                    Error::Entry => spec_parse_path(path@, false) matches Ok(cs)
                        && spec_entry_bytes(filetype, permissions, spec_join(cs)).len() > 65519,
                    _ => false,
                },
            },
    {
        let rel = match RelativePath::new(path) {
            Ok(p) => p,
            Err(pe) => {
                return Err(Error::Path(pe));
            },
        };
        proof {
            rel.lemma_wf();
        }
        let entry = FileEntry::new(filetype, rel, permissions);
        let ev = entry.into_vec();
        if ev.len() > MAX_CHUNK_LEN {
            return Err(Error::Entry);
        }
        Ok(ev)
    }

    /// Appends a directory member: exactly one entry chunk, no data.
    pub fn append_directory(&mut self, path: &str, permissions: Option<u32>) -> (r: Result<
        (),
        Error,
    >)
        requires
            old(self).wf(),
        ensures
            final(self).wf(),
            final(self).key() == old(self).key(),
            final(self).compression() == old(self).compression(),
            match r {
                Ok(_) => spec_parse_path(path@, false) matches Ok(cs) && cs.len() > 0
                    && spec_comps_ok(cs) && ({
                    let payload = spec_entry_bytes(FileType::Directory, permissions, spec_join(cs));
                    &&& exists|nonce: Seq<u8>|
                        spec_frame_at(
                            old(self).key(),
                            final(self).out(),
                            old(self).out().len() as int,
                            nonce,
                            payload,
                        )
                    &&& final(self).out().len() == old(self).out().len() + 30 + payload.len()
                    &&& final(self).out().subrange(0, old(self).out().len() as int) == old(
                        self,
                    ).out()
                }),
                Err(e) => final(self).out() == old(self).out() && match e {
                    Error::Path(pe) => spec_parse_path(path@, false) matches Err(pe2) && pe == pe2,
                    Error::Entry => spec_parse_path(path@, false) matches Ok(cs)
                        && spec_entry_bytes(FileType::Directory, permissions, spec_join(cs)).len()
                        > 65519,
                    _ => false,
                },
            },
    {
        let ev = match self.build_entry(FileType::Directory, path, permissions) {
            Ok(ev) => ev,
            Err(e) => {
                return Err(e);
            },
        };
        let ghost payload = ev@;
        let ghost pre = self.output@;
        match self.cipher.write_chunk(&mut self.output, ev) {
            Ok(_) => {},
            Err(e) => {
                return Err(e);
            },
        }
        proof {
            let nonce = choose|nonce: Seq<u8>|
                #![auto]
                nonce.len() == 12 && self.output@ == pre + spec_chunk_frame(
                    self.cipher.spec_key(),
                    nonce,
                    payload,
                );
            let frame = spec_chunk_frame(self.cipher.spec_key(), nonce, payload);
            assert(frame.len() == 14 + seal_of(self.cipher.spec_key(), nonce, payload).len());
            assert(seal_of(self.cipher.spec_key(), nonce, payload).len() == payload.len() + 16);
            assert(self.output@.subrange(
                pre.len() as int,
                pre.len() as int + 30 + payload.len() as int,
            ) =~= frame);
            assert(self.output@.subrange(0, pre.len() as int) =~= pre);
            assert(spec_frame_at(
                self.cipher.spec_key(),
                self.output@,
                pre.len() as int,
                nonce,
                payload,
            ));
        }
        Ok(())
    }

    /// Appends a file member: the entry chunk, then the (optionally
    /// compressed) content in buffer-sized chunks, then the terminator.
    /// An empty file is the entry chunk followed by the bare terminator.
    #[verifier::rlimit(60)]
    pub fn append_file(&mut self, path: &str, permissions: Option<u32>, content: &[u8]) -> (r:
        Result<(), Error>)
        requires
            old(self).wf(),
        ensures
            final(self).wf(),
            final(self).key() == old(self).key(),
            final(self).compression() == old(self).compression(),
            match r {
                Ok(_) => spec_parse_path(path@, false) matches Ok(cs) && cs.len() > 0
                    && spec_comps_ok(cs) && ({
                    let payload = spec_entry_bytes(FileType::File, permissions, spec_join(cs));
                    let encoded = spec_encoded(old(self).compression(), content@);
                    &&& exists|nonce0: Seq<u8>|
                        spec_frame_at(
                            old(self).key(),
                            final(self).out(),
                            old(self).out().len() as int,
                            nonce0,
                            payload,
                        )
                    &&& exists|nonces: Seq<Seq<u8>>|
                        spec_chunks_at(
                            old(self).key(),
                            final(self).out(),
                            old(self).out().len() as int + 30 + payload.len() as int,
                            nonces,
                            encoded,
                        ) && final(self).out().len() == old(self).out().len() + 30 + payload.len()
                            + (spec_data_chunks(old(self).key(), nonces, encoded)
                            + spec_terminator()).len()
                    &&& final(self).out().subrange(0, old(self).out().len() as int) == old(
                        self,
                    ).out()
                }),
                Err(e) => final(self).out() == old(self).out() && match e {
                    Error::Path(pe) => spec_parse_path(path@, false) matches Err(pe2) && pe == pe2,
                    Error::Entry => spec_parse_path(path@, false) matches Ok(cs)
                        && spec_entry_bytes(FileType::File, permissions, spec_join(cs)).len()
                        > 65519,
                    _ => false,
                },
            },
    {
        let ev = match self.build_entry(FileType::File, path, permissions) {
            Ok(ev) => ev,
            Err(e) => {
                return Err(e);
            },
        };
        let encoded = match encode_data(&self.compress, content) {
            Ok(v) => v,
            Err(e) => {
                return Err(e);
            },
        };
        let ghost payload = ev@;
        let ghost pre = self.output@;
        let ghost key = self.cipher.spec_key();
        match self.cipher.write_chunk(&mut self.output, ev) {
            Ok(_) => {},
            Err(e) => {
                return Err(e);
            },
        }
        let ghost nonce0 = choose|nonce: Seq<u8>|
            #![auto]
            nonce.len() == 12 && self.output@ == pre + spec_chunk_frame(key, nonce, payload);
        proof {
            let frame = spec_chunk_frame(key, nonce0, payload);
            assert(frame.len() == 14 + seal_of(key, nonce0, payload).len());
            assert(seal_of(key, nonce0, payload).len() == payload.len() + 16);
        }
        let ghost snap = self.output@;
        let ghost edata = encoded@;
        let mut cpos: usize = 0;
        let ghost mut gnonces: Seq<Seq<u8>> = Seq::empty();
        proof {
            assert(edata.skip(0) =~= edata);
            assert(self.output@.skip(snap.len() as int) =~= Seq::<u8>::empty());
        }
        while cpos < encoded.len()
            invariant
                old(self).wf(),
                self.cipher == old(self).cipher,
                self.compress == old(self).compress,
                key == self.cipher.spec_key(),
                cpos <= encoded.len(),
                encoded@ == edata,
                snap.len() <= self.output@.len(),
                self.output@.subrange(0, snap.len() as int) == snap,
                gnonces.len() + spec_chunk_count((edata.len() - cpos) as nat) == spec_chunk_count(
                    edata.len(),
                ),
                forall|rest: Seq<Seq<u8>>|
                    #![trigger spec_data_chunks(key, rest, edata.skip(cpos as int))]
                    spec_data_chunks(key, gnonces + rest, edata) == self.output@.skip(
                        snap.len() as int,
                    ) + spec_data_chunks(key, rest, edata.skip(cpos as int)),
                forall|rest: Seq<Seq<u8>>|
                    #![trigger spec_frames_wf(key, rest, edata.skip(cpos as int))]
                    spec_frames_wf(key, rest, edata.skip(cpos as int)) ==> spec_frames_wf(
                        key,
                        gnonces + rest,
                        edata,
                    ),
            decreases encoded@.len() - cpos,
        {
            let remaining = encoded.len() - cpos;
            let take = if remaining > BUF_SIZE {
                BUF_SIZE
            } else {
                remaining
            };
            let piece = vstd::slice::slice_to_vec(
                vstd::slice::slice_subrange(encoded.as_slice(), cpos, cpos + take),
            );
            let ghost rem_seq = edata.skip(cpos as int);
            proof {
                assert(take as int == spec_cut(rem_seq.len()));
                assert(piece@ =~= rem_seq.take(spec_cut(rem_seq.len())));
            }
            let ghost mid = self.output@;
            let ghost gpiece = piece@;
            match self.cipher.write_chunk(&mut self.output, piece) {
                Ok(_) => {},
                Err(e) => {
                    return Err(e);
                },
            }
            proof {
                let n = choose|nonce: Seq<u8>|
                    #![auto]
                    nonce.len() == 12 && self.output@ == mid + spec_chunk_frame(key, nonce, gpiece);
                let frame = spec_chunk_frame(key, n, gpiece);
                assert(frame.len() == 14 + seal_of(key, n, gpiece).len());
                assert(seal_of(key, n, gpiece).len() == gpiece.len() + 16);
                let sz = spec_cut(rem_seq.len());
                let cpos2 = cpos + take;
                assert(edata.skip(cpos2 as int) =~= rem_seq.skip(sz));
                let gnonces2 = gnonces.push(n);
                // The chunk-count bookkeeping advances by one.
                assert(spec_chunk_count(rem_seq.len()) == 1 + spec_chunk_count(
                    rem_seq.skip(sz).len(),
                ));
                // One more frame stands emitted.
                assert forall|rest: Seq<Seq<u8>>|
                    #![trigger spec_data_chunks(key, rest, edata.skip(cpos2 as int))]
                    spec_data_chunks(key, gnonces2 + rest, edata) == self.output@.skip(
                        snap.len() as int,
                    ) + spec_data_chunks(key, rest, edata.skip(cpos2 as int)) by {
                    let ext = seq![n] + rest;
                    assert(spec_data_chunks(key, gnonces + ext, edata) == mid.skip(
                        snap.len() as int,
                    ) + spec_data_chunks(key, ext, rem_seq));
                    assert(ext[0] == n);
                    assert(ext.drop_first() =~= rest);
                    assert(spec_data_chunks(key, ext, rem_seq) == frame + spec_data_chunks(
                        key,
                        rest,
                        rem_seq.skip(sz),
                    ));
                    assert(gnonces + ext =~= gnonces2 + rest);
                    assert(self.output@.skip(snap.len() as int) =~= mid.skip(snap.len() as int)
                        + frame);
                    assert(edata.skip(cpos2 as int) == rem_seq.skip(sz));
                }
                assert forall|rest: Seq<Seq<u8>>|
                    #![trigger spec_frames_wf(key, rest, edata.skip(cpos2 as int))]
                    spec_frames_wf(key, rest, edata.skip(cpos2 as int)) implies spec_frames_wf(
                    key,
                    gnonces2 + rest,
                    edata,
                ) by {
                    let ext = seq![n] + rest;
                    assert(ext[0] == n);
                    assert(ext.drop_first() =~= rest);
                    assert(spec_frames_wf(key, ext, rem_seq));
                    assert(spec_frames_wf(key, gnonces + ext, edata));
                    assert(gnonces + ext =~= gnonces2 + rest);
                }
                assert(self.output@.subrange(0, snap.len() as int) =~= snap);
                gnonces = gnonces2;
            }
            cpos += take;
        }
        let ghost before_term = self.output@;
        match self.cipher.write_chunk(&mut self.output, Vec::new()) {
            Ok(_) => {},
            Err(e) => {
                return Err(e);
            },
        }
        proof {
            // Close the books: no data remains, so the emitted frames are
            // exactly the chunks of the encoded content, and the terminator
            // follows them.
            assert(edata.skip(cpos as int) =~= Seq::<u8>::empty());
            let empty_rest = Seq::<Seq<u8>>::empty();
            assert(spec_data_chunks(key, empty_rest, edata.skip(cpos as int))
                =~= Seq::<u8>::empty());
            assert(gnonces + empty_rest =~= gnonces);
            assert(spec_data_chunks(key, gnonces, edata) =~= before_term.skip(snap.len() as int));
            assert(spec_frames_wf(key, empty_rest, edata.skip(cpos as int)));
            assert(spec_frames_wf(key, gnonces, edata));
            let body = spec_data_chunks(key, gnonces, edata) + spec_terminator();
            assert(self.output@.subrange(snap.len() as int, snap.len() as int + body.len() as int)
                =~= body);
            assert(spec_chunks_at(key, self.output@, snap.len() as int, gnonces, edata));
            assert(snap == pre + spec_chunk_frame(key, nonce0, payload));
            assert(snap.len() == pre.len() + 30 + payload.len());
            assert(self.output@.subrange(0, snap.len() as int) == snap) by {
                assert(before_term.subrange(0, snap.len() as int) == snap);
                assert(self.output@ == before_term + spec_terminator());
                assert(self.output@.subrange(0, snap.len() as int) =~= before_term.subrange(
                    0,
                    snap.len() as int,
                ));
            }
            assert(self.output@.subrange(0, pre.len() as int) =~= snap.subrange(
                0,
                pre.len() as int,
            ));
            assert(snap.subrange(0, pre.len() as int) =~= pre);
            assert(self.output@.subrange(pre.len() as int, snap.len() as int) =~= snap.subrange(
                pre.len() as int,
                snap.len() as int,
            ));
            assert(snap.subrange(pre.len() as int, snap.len() as int) =~= spec_chunk_frame(
                key,
                nonce0,
                payload,
            ));
            assert(spec_frame_at(key, self.output@, pre.len() as int, nonce0, payload));
            assert(self.output@.len() == snap.len() + body.len()) by {
                assert(before_term.skip(snap.len() as int).len() == before_term.len()
                    - snap.len());
            }
            let cs = spec_parse_path(path@, false)->Ok_0;
            let payload_t = spec_entry_bytes(FileType::File, permissions, spec_join(cs));
            let encoded_t = spec_encoded(old(self).compression(), content@);
            assert(payload_t == payload);
            assert(encoded_t == edata);
            assert(key == old(self).key());
            assert(pre == old(self).out());
            assert(spec_frame_at(
                old(self).key(),
                self.output@,
                old(self).out().len() as int,
                nonce0,
                payload_t,
            ));
            assert(spec_chunks_at(
                old(self).key(),
                self.output@,
                old(self).out().len() as int + 30 + payload_t.len() as int,
                gnonces,
                encoded_t,
            ));
            assert(self.output@.len() == old(self).out().len() + 30 + payload_t.len()
                + (spec_data_chunks(old(self).key(), gnonces, encoded_t)
                + spec_terminator()).len());
            assert(self.output@.subrange(0, old(self).out().len() as int) == old(self).out());
        }
        Ok(())
    }
}

/// The fields of a frame, read off at their offsets: the length field
/// spells the ciphertext length, the nonce and the seal follow.
proof fn lemma_frame_at_parts(
    key: Seq<u8>,
    bytes: Seq<u8>,
    pos: int,
    nonce: Seq<u8>,
    payload: Seq<u8>,
)
    requires
        spec_frame_at(key, bytes, pos, nonce, payload),
    ensures
        spec_be16_val(bytes[pos], bytes[pos + 1]) == payload.len() + 16,
        bytes.subrange(pos + 2, pos + 14) == nonce,
        bytes.subrange(pos + 14, pos + 14 + payload.len() + 16) == seal_of(key, nonce, payload),
{
    let frame = spec_chunk_frame(key, nonce, payload);
    let l16 = (payload.len() + 16) as u16;
    lemma_be16_round_trip(l16);
    let fr = bytes.subrange(pos, pos + 30 + payload.len());
    assert(fr == frame);
    let sl = seal_of(key, nonce, payload);
    assert(frame.len() == 14 + sl.len());
    assert(bytes[pos] == fr[0] && fr[0] == frame[0]);
    assert(bytes[pos + 1] == fr[1] && fr[1] == frame[1]);
    assert(frame[0] == (payload.len() + 16) as u16 / 256);
    assert(frame[1] == ((payload.len() + 16) as u16 % 256) as u8);
    assert forall|i: int| 0 <= i < 12 implies bytes[pos + 2 + i] == nonce[i] by {
        assert(fr[2 + i] == frame[2 + i]);
        assert(frame[2 + i] == nonce[i]);
    }
    assert(bytes.subrange(pos + 2, pos + 14) =~= nonce);
    assert forall|i: int| 0 <= i < sl.len() implies bytes[pos + 14 + i] == sl[i] by {
        assert(fr[14 + i] == frame[14 + i]);
        assert(frame[14 + i] == sl[i]);
    }
    assert(bytes.subrange(pos + 14, pos + 14 + payload.len() + 16) =~= sl);
}

/// An archive read session: owns the input buffer, the cursor and the
/// cipher derived from the header.
pub struct Decoder {
    input: Vec<u8>,
    pos: usize,
    cipher: Cipher,
    compress: bool,
}

impl Decoder {
    /// The whole input.
    pub closed spec fn in_bytes(self) -> Seq<u8> {
        self.input@
    }

    /// The cursor: where the next chunk starts.
    pub closed spec fn pos_at(self) -> int {
        self.pos as int
    }

    /// The derived session key.
    pub closed spec fn key(self) -> Seq<u8> {
        self.cipher.spec_key()
    }

    /// The compression flag the header carried.
    pub closed spec fn compressed(self) -> bool {
        self.compress
    }

    /// A live session: a usable cipher and a cursor inside the input.
    pub open spec fn wf(self) -> bool {
        &&& self.key().len() == 32
        &&& 0 <= self.pos_at() <= self.in_bytes().len()
    }

    /// Opens an archive for reading: parses and validates the header and
    /// derives the cipher from the password and the header's salt and
    /// parameters.
    pub fn new(input: Vec<u8>, password: &str) -> (r: Result<Decoder, Error>)
        ensures
            match r {
                Ok(d) => spec_parse_header(input@) matches Ok((salt, params, compress)) && {
                    &&& d.wf()
                    &&& d.in_bytes() == input@
                    &&& d.pos_at() == 78
                    &&& d.compressed() == compress
                    &&& d.key() == scrypt_key_of(password.spec_bytes(), salt, params)
                },
                Err(e) => spec_parse_header(input@) matches Err(e2) && e == e2,
            },
    {
        let header = match FileHeader::read_from(input.as_slice()) {
            Ok(h) => h,
            Err(e) => {
                return Err(e);
            },
        };
        let cipher = Cipher::new(password, header.salt.as_slice(), &header.params);
        Ok(Decoder { input, pos: HEADER_LEN, cipher, compress: header.compress })
    }

    /// Ends the session: wipes the key from memory.
    pub fn finish(self)
    {
        let Decoder { input: _, pos: _, mut cipher, compress: _ } = self;
        cipher.wipe();
    }

    /// Reads and decrypts exactly one chunk and parses it as an entry.
    /// `None` is the clean end of the archive.  A genuine entry frame at
    /// the cursor — one sealed under this session's key — is always
    /// accepted and decodes to exactly the entry whose record it carries;
    /// and whatever was accepted was genuinely sealed under this key,
    /// which is what makes a wrong password fail instead of yielding
    /// altered entries.
    pub fn read_entry(&mut self) -> (out: Option<Result<FileEntry, Error>>)
        requires
            old(self).wf(),
        ensures
            final(self).wf(),
            final(self).in_bytes() == old(self).in_bytes(),
            final(self).key() == old(self).key(),
            final(self).compressed() == old(self).compressed(),
            out is None <==> old(self).pos_at() + 2 > old(self).in_bytes().len(),
            out is None ==> final(self).pos_at() == old(self).pos_at(),
            final(self).pos_at() >= old(self).pos_at(),
            old(self).pos_at() + 2 <= old(self).in_bytes().len() ==> ({
                let p0 = old(self).pos_at();
                let bytes = old(self).in_bytes();
                let l = spec_be16_val(bytes[p0], bytes[p0 + 1]) as int;
                &&& (l == 0 ==> (out matches Some(res) && ((res matches Err(e) && e
                    == Error::Entry) && final(self).pos_at() == p0 + 2)))
                &&& ((l > 0 && p0 + 14 + l > bytes.len()) ==> (out matches Some(res) && ((res
                    matches Err(e) && e == Error::Io) && final(self).pos_at() == p0)))
                &&& ((l > 0 && p0 + 14 + l <= bytes.len()) ==> ({
                    let nonce = bytes.subrange(p0 + 2, p0 + 14);
                    let ct = bytes.subrange(p0 + 14, p0 + 14 + l);
                    out matches Some(res) && (res matches Err(e) ==> match e {
                        Error::Aes => final(self).pos_at() == p0 && (forall|plain: Seq<u8>|
                            ct != seal_of(old(self).key(), nonce, plain)),
                        Error::Io => false,
                        _ => final(self).pos_at() == p0 + 14 + l && (exists|v: Seq<u8>|
                            #![trigger spec_parse_entry(v)]
                            ct == seal_of(old(self).key(), nonce, v) && spec_parse_entry(v)
                                == Err::<(FileType, Option<u32>, Seq<Seq<char>>), _>(e)),
                    })
                }))
            }),
            forall|nonce: Seq<u8>, payload: Seq<u8>|
                spec_frame_at(
                    old(self).key(),
                    old(self).in_bytes(),
                    old(self).pos_at(),
                    nonce,
                    payload,
                ) ==> (out matches Some(res) && (match spec_parse_entry(payload) {
                    Ok((t, pm, cs)) => res matches Ok(e) && e.filetype == t && e.permissions == pm
                        && e.path.wf() && e.path.components() == cs && e.path.spec_inner()
                        == spec_join(cs) && final(self).pos_at() == old(self).pos_at() + 30
                        + payload.len(),
                    Err(er) => res matches Err(e2) && e2 == er,
                })),
            out matches Some(res) ==> res matches Ok(e) ==> exists|payload: Seq<u8>|
                #![trigger spec_parse_entry(payload)]
                spec_frame_at(
                    old(self).key(),
                    old(self).in_bytes(),
                    old(self).pos_at(),
                    old(self).in_bytes().subrange(
                        old(self).pos_at() + 2,
                        old(self).pos_at() + 14,
                    ),
                    payload,
                ) && (spec_parse_entry(payload) matches Ok((t, pm, cs)) && e.filetype == t
                    && e.permissions == pm && e.path.components() == cs),
    {
        let ghost key = self.cipher.spec_key();
        let ghost bytes = self.input@;
        let ghost p0 = self.pos as int;
        let chunk = match self.cipher.read_chunk(&self.input, &mut self.pos) {
            None => {
                return None;
            },
            Some(Err(e)) => {
                proof {
                    assert forall|nonce: Seq<u8>, payload: Seq<u8>|
                        !spec_frame_at(key, bytes, p0, nonce, payload) by {
                        if spec_frame_at(key, bytes, p0, nonce, payload) {
                            lemma_frame_at_parts(key, bytes, p0, nonce, payload);
                        }
                    }
                }
                return Some(Err(e));
            },
            Some(Ok(v)) => v,
        };
        let ghost v0 = chunk@;
        proof {
            // A genuine frame at the cursor forces this very payload.
            assert forall|nonce: Seq<u8>, payload: Seq<u8>|
                spec_frame_at(key, bytes, p0, nonce, payload) implies v0 == payload && nonce
                == bytes.subrange(p0 + 2, p0 + 14) && self.pos == p0 + 30 + payload.len() by {
                lemma_frame_at_parts(key, bytes, p0, nonce, payload);
            }
        }
        let out = FileEntry::from_vec(chunk);
        proof {
            if out is Ok {
                // What was accepted names the frame that stood there.
                let l = spec_be16_val(bytes[p0], bytes[p0 + 1]) as int;
                assert(l == v0.len() + 16);
                let nonce = bytes.subrange(p0 + 2, p0 + 14);
                let ct = bytes.subrange(p0 + 14, p0 + 14 + l);
                lemma_be16_inverse(bytes[p0 as int], bytes[p0 + 1]);
                assert(bytes.subrange(p0, p0 + 30 + v0.len() as int) =~= spec_chunk_frame(
                    key,
                    nonce,
                    v0,
                ));
                assert(spec_frame_at(key, bytes, p0, nonce, v0));
            }
        }
        match out {
            Ok(e) => Some(Ok(e)),
            Err(e) => Some(Err(e)),
        }
    }

    /// Reads data chunks until the terminator or the end of the input,
    /// decodes the collected content and appends it to `sink`.  When the
    /// input at the cursor carries a whole chunked stream for some content
    /// — as the encoding side writes it — reading always succeeds, the
    /// cursor stops right after the terminator, and the sink receives
    /// exactly the content: the original bytes where compression was off,
    /// the decompressed original where it was on.  The first failure —
    /// tampered data, a truncated chunk, or a stream that is no compressor
    /// output — aborts with its error, and then the sink has received
    /// nothing: no partial or unauthenticated plaintext is surfaced.
    pub fn read_data_to(&mut self, sink: &mut Vec<u8>) -> (r: Result<(), Error>)
        requires
            old(self).wf(),
        ensures
            final(self).wf(),
            final(self).in_bytes() == old(self).in_bytes(),
            final(self).key() == old(self).key(),
            final(self).compressed() == old(self).compressed(),
            final(self).pos_at() >= old(self).pos_at(),
            r matches Err(e) ==> final(sink)@ == old(sink)@ && (e == Error::Aes || e
                == Error::Io),
            forall|nonces: Seq<Seq<u8>>, data: Seq<u8>|
                #![trigger spec_chunks_at(old(self).key(), old(self).in_bytes(), old(self).pos_at(), nonces, data)]
                spec_chunks_at(
                    old(self).key(),
                    old(self).in_bytes(),
                    old(self).pos_at(),
                    nonces,
                    data,
                ) ==> ({
                    let endpos = old(self).pos_at() + (spec_data_chunks(
                        old(self).key(),
                        nonces,
                        data,
                    ) + spec_terminator()).len();
                    &&& (!old(self).compressed() ==> r is Ok && final(sink)@ == old(sink)@ + data
                        && final(self).pos_at() == endpos)
                    &&& (old(self).compressed() ==> ((exists|q: int, orig: Seq<u8>|
                        data == #[trigger] brotli_of(q, orig)) ==> (r is Ok
                        && final(self).pos_at() == endpos && forall|q: int, orig: Seq<u8>|
                        data == #[trigger] brotli_of(q, orig) ==> final(sink)@ == old(sink)@
                            + orig)))
                }),
    {
        let ghost key = self.cipher.spec_key();
        let ghost bytes = self.input@;
        let ghost gp0 = self.pos as int;
        let mut collected: Vec<u8> = Vec::new();
        let mut done = false;
        let ghost mut gj: int = 0;
        proof {
            assert forall|nonces: Seq<Seq<u8>>, data: Seq<u8>|
                spec_chunks_at(key, bytes, gp0, nonces, data) implies ({
                &&& collected@ =~= data.take(collected@.len() as int)
                &&& nonces.skip(0) =~= nonces
                &&& data.skip(0) =~= data
            }) by {
                assert(collected@ =~= data.take(0));
            }
        }
        while !done
            invariant
                old(self).wf(),
                self.input@ == bytes,
                self.cipher == old(self).cipher,
                self.compress == old(self).compress,
                key == self.cipher.spec_key(),
                bytes == old(self).in_bytes(),
                gp0 == old(self).pos_at(),
                self.pos <= self.input@.len(),
                gp0 <= self.pos as int,
                0 <= gj,
                forall|nonces: Seq<Seq<u8>>, data: Seq<u8>|
                    #![trigger spec_chunks_at(key, bytes, gp0, nonces, data)]
                    spec_chunks_at(key, bytes, gp0, nonces, data) ==> ({
                        let cl = collected@.len() as int;
                        let remaining = data.skip(cl);
                        let restn = nonces.skip(gj);
                        let blen = (spec_data_chunks(key, nonces, data)
                            + spec_terminator()).len();
                        &&& gj <= nonces.len()
                        &&& cl <= data.len()
                        &&& collected@ == data.take(cl)
                        &&& (done ==> collected@ == data && self.pos as int == gp0 + blen)
                        &&& (!done ==> {
                            &&& restn.len() == spec_chunk_count(remaining.len())
                            &&& spec_frames_wf(key, restn, remaining)
                            &&& self.pos as int + (spec_data_chunks(key, restn, remaining)
                                + spec_terminator()).len() == gp0 + blen
                            &&& bytes.subrange(self.pos as int, gp0 + blen) == spec_data_chunks(
                                key,
                                restn,
                                remaining,
                            ) + spec_terminator()
                        })
                    }),
            decreases self.input@.len() - self.pos + (if done {
                0int
            } else {
                1int
            }),
        {
            let ghost prepos = self.pos as int;
            let ghost precol = collected@;
            match self.cipher.read_chunk(&self.input, &mut self.pos) {
                None => {
                    proof {
                        assert forall|nonces: Seq<Seq<u8>>, data: Seq<u8>|
                            spec_chunks_at(key, bytes, gp0, nonces, data) implies false by {
                            let cl = precol.len() as int;
                            let remaining = data.skip(cl);
                            let restn = nonces.skip(gj);
                            let blen = (spec_data_chunks(key, nonces, data)
                                + spec_terminator()).len();
                            assert(prepos + (spec_data_chunks(key, restn, remaining)
                                + spec_terminator()).len() == gp0 + blen);
                            assert(gp0 + blen <= bytes.len());
                            assert(prepos + 2 <= bytes.len());
                        }
                    }
                    done = true;
                },
                Some(Err(e)) => {
                    proof {
                        assert forall|nonces: Seq<Seq<u8>>, data: Seq<u8>|
                            spec_chunks_at(key, bytes, gp0, nonces, data) implies false by {
                            let cl = precol.len() as int;
                            let remaining = data.skip(cl);
                            let restn = nonces.skip(gj);
                            let blen = (spec_data_chunks(key, nonces, data)
                                + spec_terminator()).len();
                            let end = gp0 + blen;
                            if remaining.len() == 0 {
                                // The terminator stands here: its length field is zero,
                                // so reading cannot fail.
                                assert(bytes.subrange(prepos, end) == spec_data_chunks(
                                    key,
                                    restn,
                                    remaining,
                                ) + spec_terminator());
                                assert(bytes.subrange(prepos, end) =~= spec_terminator());
                                assert(bytes[prepos] == 0 && bytes[prepos + 1] == 0);
                                assert(spec_be16_val(0, 0) == 0);
                            } else {
                                lemma_chunks_head(key, bytes, prepos, end, restn, remaining);
                                let sz = spec_cut(remaining.len());
                                let c = remaining.take(sz);
                                lemma_frame_at_parts(key, bytes, prepos, restn[0], c);
                            }
                        }
                    }
                    return Err(e);
                },
                Some(Ok(mut v)) => {
                    if v.len() == 0 {
                        proof {
                            assert forall|nonces: Seq<Seq<u8>>, data: Seq<u8>|
                                spec_chunks_at(key, bytes, gp0, nonces, data) implies ({
                                let blen = (spec_data_chunks(key, nonces, data)
                                    + spec_terminator()).len();
                                precol == data && self.pos as int == gp0 + blen
                            }) by {
                                let cl = precol.len() as int;
                                let remaining = data.skip(cl);
                                let restn = nonces.skip(gj);
                                let blen = (spec_data_chunks(key, nonces, data)
                                    + spec_terminator()).len();
                                let end = gp0 + blen;
                                if remaining.len() > 0 {
                                    lemma_chunks_head(key, bytes, prepos, end, restn, remaining);
                                    let sz = spec_cut(remaining.len());
                                    let c = remaining.take(sz);
                                    lemma_frame_at_parts(key, bytes, prepos, restn[0], c);
                                    // The length field spells a payload of at least one
                                    // byte, so the chunk read back is not empty.
                                    assert(spec_be16_val(bytes[prepos], bytes[prepos + 1])
                                        == c.len() + 16);
                                    assert(c.len() >= 1);
                                } else {
                                    assert(bytes.subrange(prepos, end) =~= spec_terminator());
                                    assert(bytes[prepos] == 0 && bytes[prepos + 1] == 0);
                                    assert(spec_be16_val(0, 0) == 0);
                                    assert(self.pos as int == prepos + 2);
                                    assert(data.take(cl) =~= data);
                                }
                            }
                        }
                        done = true;
                    } else {
                        let ghost gv = v@;
                        collected.append(&mut v);
                        proof {
                            gj = gj + 1;
                            assert forall|nonces: Seq<Seq<u8>>, data: Seq<u8>|
                                spec_chunks_at(key, bytes, gp0, nonces, data) implies ({
                                let cl = collected@.len() as int;
                                let remaining = data.skip(cl);
                                let restn = nonces.skip(gj);
                                let blen = (spec_data_chunks(key, nonces, data)
                                    + spec_terminator()).len();
                                &&& gj <= nonces.len()
                                &&& cl <= data.len()
                                &&& collected@ == data.take(cl)
                                &&& restn.len() == spec_chunk_count(remaining.len())
                                &&& spec_frames_wf(key, restn, remaining)
                                &&& self.pos as int + (spec_data_chunks(key, restn, remaining)
                                    + spec_terminator()).len() == gp0 + blen
                                &&& bytes.subrange(self.pos as int, gp0 + blen)
                                    == spec_data_chunks(key, restn, remaining)
                                    + spec_terminator()
                            }) by {
                                let cl0 = precol.len() as int;
                                let rem0 = data.skip(cl0);
                                let restn0 = nonces.skip(gj - 1);
                                let blen = (spec_data_chunks(key, nonces, data)
                                    + spec_terminator()).len();
                                let end = gp0 + blen;
                                if rem0.len() == 0 {
                                    // Only the terminator stands here, whose payload is
                                    // empty: this branch read a non-empty chunk.
                                    assert(bytes.subrange(prepos, end) =~= spec_terminator());
                                    assert(bytes[prepos] == 0 && bytes[prepos + 1] == 0);
                                    assert(spec_be16_val(0, 0) == 0);
                                } else {
                                    lemma_chunks_head(key, bytes, prepos, end, restn0, rem0);
                                    let sz = spec_cut(rem0.len());
                                    let c = rem0.take(sz);
                                    lemma_frame_at_parts(key, bytes, prepos, restn0[0], c);
                                    assert(gv == c);
                                    assert(self.pos as int == prepos + 30 + sz);
                                    assert(collected@ =~= precol + gv);
                                    assert(collected@ =~= data.take(cl0 + sz));
                                    assert(data.skip(cl0 + sz) =~= rem0.skip(sz));
                                    assert(nonces.skip(gj) =~= restn0.drop_first());
                                    assert(spec_chunk_count(rem0.len()) == 1 + spec_chunk_count(
                                        rem0.skip(sz).len(),
                                    ));
                                }
                            }
                        }
                    }
                },
            }
        }
        let ghost gcol = collected@;
        let decoded = match decode_data(self.compress, collected.as_slice()) {
            Ok(v) => v,
            Err(e) => {
                return Err(e);
            },
        };
        let mut buf = decoded;
        sink.append(&mut buf);
        Ok(())
    }
}

/// The head of a chunked data stream: while data remains, one frame for
/// the next buffer-sized cut stands first, and the rest of the stream
/// follows it.
proof fn lemma_chunks_head(
    key: Seq<u8>,
    bytes: Seq<u8>,
    pos: int,
    end: int,
    restn: Seq<Seq<u8>>,
    remaining: Seq<u8>,
)
    requires
        remaining.len() > 0,
        0 <= pos,
        end <= bytes.len(),
        bytes.subrange(pos, end) == spec_data_chunks(key, restn, remaining) + spec_terminator(),
        end - pos == (spec_data_chunks(key, restn, remaining) + spec_terminator()).len(),
        spec_frames_wf(key, restn, remaining),
    ensures
        spec_frame_at(
            key,
            bytes,
            pos,
            restn[0],
            remaining.take(spec_cut(remaining.len())),
        ),
        bytes.subrange(pos + 30 + spec_cut(remaining.len()), end) == spec_data_chunks(
            key,
            restn.drop_first(),
            remaining.skip(spec_cut(remaining.len())),
        ) + spec_terminator(),
{
    let sz = spec_cut(remaining.len());
    let c = remaining.take(sz);
    let frame = spec_chunk_frame(key, restn[0], c);
    let tail = spec_data_chunks(key, restn.drop_first(), remaining.skip(sz)) + spec_terminator();
    assert(seal_of(key, restn[0], c).len() == sz + 16);
    assert(frame.len() == 30 + sz);
    assert(spec_data_chunks(key, restn, remaining) + spec_terminator() == frame + tail) by {
        assert(spec_data_chunks(key, restn, remaining) == frame + spec_data_chunks(
            key,
            restn.drop_first(),
            remaining.skip(sz),
        ));
        assert((frame + spec_data_chunks(key, restn.drop_first(), remaining.skip(sz)))
            + spec_terminator() =~= frame + tail);
    }
    let whole = bytes.subrange(pos, end);
    assert(whole == frame + tail);
    assert(bytes.subrange(pos, pos + 30 + sz) =~= frame) by {
        assert forall|i: int| 0 <= i < 30 + sz implies bytes[pos + i] == frame[i] by {
            assert(whole[i] == frame[i]);
            assert(bytes[pos + i] == whole[i]);
        }
    }
    assert(c.len() <= 65519);
    assert(spec_frame_at(key, bytes, pos, restn[0], c));
    assert(bytes.subrange(pos + 30 + sz, end) =~= tail) by {
        assert forall|i: int| 0 <= i < tail.len() implies bytes[pos + 30 + sz + i] == tail[i] by {
            assert(whole[30 + sz + i] == tail[i]);
            assert(bytes[pos + 30 + sz + i] == whole[30 + sz + i]);
        }
    }
}

/// Parsing a header reads only the first 78 bytes: two inputs that agree
/// there parse alike.
proof fn lemma_parse_header_prefix(b1: Seq<u8>, b2: Seq<u8>)
    requires
        b1.len() >= 78,
        b2.len() >= 78,
        b1.subrange(0, 78) == b2.subrange(0, 78),
    ensures
        spec_parse_header(b1) == spec_parse_header(b2),
{
    let p1 = b1.subrange(0, 78);
    assert forall|i: int| 0 <= i < 78 implies b1[i] == b2[i] by {
        assert(p1[i] == b1[i]);
        assert(b2.subrange(0, 78)[i] == b2[i]);
    }
    assert(b1.subrange(0, 4) =~= b2.subrange(0, 4));
    assert(b1.subrange(4, 68) =~= b2.subrange(4, 68));
}

/// A frame survives appending: it still stands at its position after the
/// buffer grows on the right.
proof fn lemma_frame_at_extend(
    key: Seq<u8>,
    b1: Seq<u8>,
    b2: Seq<u8>,
    pos: int,
    nonce: Seq<u8>,
    payload: Seq<u8>,
)
    requires
        spec_frame_at(key, b1, pos, nonce, payload),
        b1.len() <= b2.len(),
        b2.subrange(0, b1.len() as int) == b1,
    ensures
        spec_frame_at(key, b2, pos, nonce, payload),
{
    let end = pos + 30 + payload.len();
    assert(b2.subrange(pos, end) =~= b1.subrange(pos, end)) by {
        assert forall|i: int| 0 <= i < end - pos implies #[trigger] b2[pos + i] == b1[pos + i] by {
            assert(b2.subrange(0, b1.len() as int)[pos + i] == b2[pos + i]);
        }
    }
}

/// A chunked data stream survives appending, just as a frame does.
proof fn lemma_chunks_at_extend(
    key: Seq<u8>,
    b1: Seq<u8>,
    b2: Seq<u8>,
    pos: int,
    nonces: Seq<Seq<u8>>,
    data: Seq<u8>,
)
    requires
        spec_chunks_at(key, b1, pos, nonces, data),
        b1.len() <= b2.len(),
        b2.subrange(0, b1.len() as int) == b1,
    ensures
        spec_chunks_at(key, b2, pos, nonces, data),
{
    let body = spec_data_chunks(key, nonces, data) + spec_terminator();
    let end = pos + body.len();
    assert(b2.subrange(pos, end) =~= b1.subrange(pos, end)) by {
        assert forall|i: int| 0 <= i < end - pos implies #[trigger] b2[pos + i] == b1[pos + i] by {
            assert(b2.subrange(0, b1.len() as int)[pos + i] == b2[pos + i]);
        }
    }
}

/// A prefix of a prefix: extension equalities compose.
proof fn lemma_prefix_trans(b0: Seq<u8>, b1: Seq<u8>, b2: Seq<u8>)
    requires
        b0.len() <= b1.len() <= b2.len(),
        b1.subrange(0, b0.len() as int) == b0,
        b2.subrange(0, b1.len() as int) == b1,
    ensures
        b2.subrange(0, b0.len() as int) == b0,
{
    assert(b2.subrange(0, b0.len() as int) =~= b0) by {
        assert forall|i: int| 0 <= i < b0.len() implies b2[i] == b0[i] by {
            assert(b2.subrange(0, b1.len() as int)[i] == b2[i]);
            assert(b1.subrange(0, b0.len() as int)[i] == b1[i]);
        }
    }
}

/// The record a member of the tree serializes to.
pub open spec fn spec_member_payload(m: (FileType, String, Option<u32>, Vec<u8>)) -> Seq<u8> {
    spec_entry_bytes(m.0, m.2, spec_join(spec_parse_path(m.1@, false)->Ok_0))
}

/// The member's path parses, its components are valid, and its record
/// fits in one chunk.
pub open spec fn spec_member_parsed(m: (FileType, String, Option<u32>, Vec<u8>)) -> bool {
    &&& spec_parse_path(m.1@, false) is Ok
    &&& spec_parse_path(m.1@, false)->Ok_0.len() > 0
    &&& spec_comps_ok(spec_parse_path(m.1@, false)->Ok_0)
    &&& spec_member_payload(m).len() <= 65519
}

/// Where member `i` of the encoded tree starts and what stands there.
#[verifier::opaque]
spec fn spec_member_at(
    key: Seq<u8>,
    out: Seq<u8>,
    compress: Option<u32>,
    m: (FileType, String, Option<u32>, Vec<u8>),
    pos: int,
    next: int,
    en: Seq<u8>,
    dn: Seq<Seq<u8>>,
) -> bool {
    let payload = spec_member_payload(m);
    &&& spec_member_parsed(m)
    &&& spec_frame_at(key, out, pos, en, payload)
    &&& (m.0 == FileType::File ==> spec_chunks_at(
        key,
        out,
        pos + 30 + payload.len(),
        dn,
        spec_encoded(compress, m.3@),
    ) && next == pos + 30 + payload.len() + (spec_data_chunks(
        key,
        dn,
        spec_encoded(compress, m.3@),
    ) + spec_terminator()).len())
    &&& (m.0 == FileType::Directory ==> next == pos + 30 + payload.len())
}

/// The ghost layout of an encoded tree: where each member starts, and
/// under which nonces its record and data were sealed.
#[verifier::opaque]
spec fn spec_tree_layout(
    key: Seq<u8>,
    bytes: Seq<u8>,
    compress: Option<u32>,
    members: Seq<(FileType, String, Option<u32>, Vec<u8>)>,
    gpos: Seq<int>,
    gen: Seq<Seq<u8>>,
    gdn: Seq<Seq<Seq<u8>>>,
) -> bool {
    &&& gpos.len() == members.len() + 1
    &&& gen.len() == members.len()
    &&& gdn.len() == members.len()
    &&& gpos[0] == 78
    &&& forall|i: int|
        #![trigger gpos[i]]
        0 <= i < members.len() ==> spec_member_at(
            key,
            bytes,
            compress,
            members[i],
            gpos[i],
            gpos[i + 1],
            gen[i],
            gdn[i],
        )
}

/// Encodes a whole tree and hands back, beside the archive, the ghost
/// layout that the decoding proof walks.
#[verifier::rlimit(100)]
#[verifier::spinoff_prover]
fn encode_tree(
    password: &str,
    params: KdfParams,
    compress: Option<u32>,
    members: &Vec<(FileType, String, Option<u32>, Vec<u8>)>,
) -> (r: Result<(Vec<u8>, Ghost<(Seq<u8>, Seq<int>, Seq<Seq<u8>>, Seq<Seq<Seq<u8>>>)>), Error>)
    requires
        params.valid(),
        compress matches Some(q) ==> q <= 11,
    ensures
        r matches Ok(pair) ==> ({
            let (salt, gpos, gen, gdn) = pair.1@;
            &&& salt.len() == 64
            &&& spec_parse_header(pair.0@) == Ok::<_, Error>((salt, params, compress is Some))
            &&& spec_tree_layout(
                scrypt_key_of(password.spec_bytes(), salt, params),
                pair.0@,
                compress,
                members@,
                gpos,
                gen,
                gdn,
            )
        }),
        r is Err ==> exists|i: int|
            0 <= i < members@.len() && !(#[trigger] spec_member_parsed(members@[i])),
{
    let n = members.len();
    let mut enc = match Encoder::new(password, params, compress) {
        Ok(e) => e,
        Err(e) => {
            return Err(e);
        },
    };
    let ghost key = enc.key();
    let ghost salt = choose|s: Seq<u8>|
        #![auto]
        s.len() == 64 && enc.out() == spec_header_bytes(s, params, compress is Some)
            && enc.key() == scrypt_key_of(password.spec_bytes(), s, params);
    let ghost out0 = enc.out();
    let ghost mut gpos: Seq<int> = seq![out0.len() as int];
    let ghost mut gen: Seq<Seq<u8>> = Seq::empty();
    let ghost mut gdn: Seq<Seq<Seq<u8>>> = Seq::empty();
    let mut k: usize = 0;
    while k < n
        invariant
            k <= n,
            n == members@.len(),
            enc.wf(),
            enc.key() == key,
            enc.compression() == compress,
            out0.len() == 78,
            out0.len() <= enc.out().len(),
            enc.out().subrange(0, out0.len() as int) == out0,
            gpos.len() == k + 1,
            gen.len() == k,
            gdn.len() == k,
            gpos[0] == out0.len(),
            gpos[k as int] == enc.out().len(),
            forall|i: int|
                #![trigger gpos[i]]
                0 <= i < k ==> spec_member_at(
                    key,
                    enc.out(),
                    compress,
                    members@[i],
                    gpos[i],
                    gpos[i + 1],
                    gen[i],
                    gdn[i],
                ),
        decreases n - k,
    {
        let m = &members[k];
        let ghost gm = members@[k as int];
        let ghost pre = enc.out();
        let is_file = m.0.is_file();
        let step = if is_file {
            enc.append_file(m.1.as_str(), m.2, m.3.as_slice())
        } else {
            enc.append_directory(m.1.as_str(), m.2)
        };
        match step {
            Ok(_) => {},
            Err(e) => {
                proof {
                    // The failure names its culprit: a bad or oversized
                    // member.
                    assert(!spec_member_parsed(members@[k as int]));
                }
                return Err(e);
            },
        }
        proof {
            reveal(spec_member_at);
            let payload = spec_member_payload(gm);
            let en_k = choose|nonce: Seq<u8>|
                spec_frame_at(key, enc.out(), pre.len() as int, nonce, payload);
            let dn_k: Seq<Seq<u8>> = if gm.0 == FileType::File {
                choose|nonces: Seq<Seq<u8>>|
                    spec_chunks_at(
                        key,
                        enc.out(),
                        pre.len() as int + 30 + payload.len() as int,
                        nonces,
                        spec_encoded(compress, gm.3@),
                    ) && enc.out().len() == pre.len() + 30 + payload.len() + (spec_data_chunks(
                        key,
                        nonces,
                        spec_encoded(compress, gm.3@),
                    ) + spec_terminator()).len()
            } else {
                Seq::empty()
            };
            let gpos2 = gpos.push(enc.out().len() as int);
            let gen2 = gen.push(en_k);
            let gdn2 = gdn.push(dn_k);
            lemma_prefix_trans(out0, pre, enc.out());
            assert forall|i: int|
                #![trigger gpos2[i]]
                0 <= i < k + 1 implies spec_member_at(
                key,
                enc.out(),
                compress,
                members@[i],
                gpos2[i],
                gpos2[i + 1],
                gen2[i],
                gdn2[i],
            ) by {
                if i < k {
                    assert(spec_member_at(
                        key,
                        pre,
                        compress,
                        members@[i],
                        gpos[i],
                        gpos[i + 1],
                        gen[i],
                        gdn[i],
                    ));
                    let pl = spec_member_payload(members@[i]);
                    lemma_frame_at_extend(key, pre, enc.out(), gpos[i], gen[i], pl);
                    if members@[i].0 == FileType::File {
                        lemma_chunks_at_extend(
                            key,
                            pre,
                            enc.out(),
                            gpos[i] + 30 + pl.len(),
                            gdn[i],
                            spec_encoded(compress, members@[i].3@),
                        );
                    }
                } else {
                    assert(spec_frame_at(key, enc.out(), pre.len() as int, en_k, payload));
                }
            }
            gpos = gpos2;
            gen = gen2;
            gdn = gdn2;
        }
        k += 1;
    }
    let archive = enc.finish();
    proof {
        lemma_header_round_trip(salt, params, compress is Some);
        assert(spec_header_bytes(salt, params, compress is Some).subrange(0, 78)
            =~= spec_header_bytes(salt, params, compress is Some));
        assert(archive@.subrange(0, 78) =~= out0) by {
            assert(archive@.subrange(0, out0.len() as int) == out0);
        }
        lemma_parse_header_prefix(archive@, spec_header_bytes(salt, params, compress is Some));
        reveal(spec_tree_layout);
    }
    let ghost layout = (salt, gpos, gen, gdn);
    Ok((archive, Ghost(layout)))
}

/// Decodes one member whose frame — and, for a file, whose chunked data
/// stream — is known to stand at the cursor.
#[verifier::rlimit(100)]
#[verifier::spinoff_prover]
fn decode_member(
    dec: &mut Decoder,
    gm: Ghost<(FileType, String, Option<u32>, Vec<u8>)>,
    gnext: Ghost<int>,
    gen_i: Ghost<Seq<u8>>,
    gdn_i: Ghost<Seq<Seq<u8>>>,
    gcompress: Ghost<Option<u32>>,
) -> (r: Result<(FileEntry, Vec<u8>), Error>)
    requires
        old(dec).wf(),
        old(dec).compressed() == (gcompress@ is Some),
        gcompress@ matches Some(q) ==> q <= 11,
        spec_member_at(
            old(dec).key(),
            old(dec).in_bytes(),
            gcompress@,
            gm@,
            old(dec).pos_at(),
            gnext@,
            gen_i@,
            gdn_i@,
        ),
    ensures
        final(dec).wf(),
        final(dec).in_bytes() == old(dec).in_bytes(),
        final(dec).key() == old(dec).key(),
        final(dec).compressed() == old(dec).compressed(),
        r is Ok,
        r matches Ok(out) ==> ({
            let m = gm@;
            &&& out.0.filetype == m.0
            &&& out.0.permissions == spec_perm_of_word(spec_perm_word(m.2))
            &&& spec_parse_path(m.1@, false) matches Ok(cs) && out.0.path.components() == cs
            &&& (m.0 == FileType::File ==> out.1@ == m.3@)
            &&& (m.0 == FileType::Directory ==> out.1@.len() == 0)
            &&& final(dec).pos_at() == gnext@
        }),
{
    let ghost m = gm@;
    let ghost payload = spec_member_payload(m);
    let ghost cs = spec_parse_path(m.1@, false)->Ok_0;
    proof {
        reveal(spec_member_at);
        lemma_entry_round_trip(m.0, m.2, cs);
    }
    let entry = match dec.read_entry() {
        Some(Ok(e)) => e,
        _ => {
            return Err(Error::Io);
        },
    };
    let mut data: Vec<u8> = Vec::new();
    if entry.filetype.is_file() {
        proof {
            reveal(spec_member_at);
            assert(m.0 == FileType::File);
            assert(spec_chunks_at(
                old(dec).key(),
                old(dec).in_bytes(),
                old(dec).pos_at() + 30 + payload.len() as int,
                gdn_i@,
                spec_encoded(gcompress@, m.3@),
            ));
            if gcompress@ is Some {
                let q = gcompress@->0;
                assert(spec_encoded(gcompress@, m.3@) == brotli_of(q as int, m.3@));
            }
        }
        match dec.read_data_to(&mut data) {
            Ok(_) => {},
            Err(e) => {
                return Err(e);
            },
        }
    }
    Ok((entry, data))
}

/// Decodes a tree whose ghost layout is known, reproducing every member.
#[verifier::rlimit(100)]
#[verifier::spinoff_prover]
fn decode_tree(
    dec: Decoder,
    members: &Vec<(FileType, String, Option<u32>, Vec<u8>)>,
    compress: Ghost<Option<u32>>,
    layout: Ghost<(Seq<u8>, Seq<int>, Seq<Seq<u8>>, Seq<Seq<Seq<u8>>>)>,
) -> (r: Result<Vec<(FileEntry, Vec<u8>)>, Error>)
    requires
        ({
            let (key, gpos, gen, gdn) = layout@;
            &&& dec.wf()
            &&& dec.key() == key
            &&& dec.compressed() == (compress@ is Some)
            &&& compress@ matches Some(q) ==> q <= 11
            &&& spec_tree_layout(key, dec.in_bytes(), compress@, members@, gpos, gen, gdn)
            &&& dec.pos_at() == 78
        }),
    ensures
        r is Ok,
        r matches Ok(out) ==> out@.len() == members@.len() && (forall|i: int|
            0 <= i < members@.len() ==> {
                let m = #[trigger] members@[i];
                &&& out@[i].0.filetype == m.0
                &&& out@[i].0.permissions == spec_perm_of_word(spec_perm_word(m.2))
                &&& spec_parse_path(m.1@, false) matches Ok(cs) && out@[i].0.path.components()
                    == cs
                &&& (m.0 == FileType::File ==> out@[i].1@ == m.3@)
                &&& (m.0 == FileType::Directory ==> out@[i].1@.len() == 0)
            }),
{
    let ghost (key, gpos, gen, gdn) = layout@;
    let ghost garch = dec.in_bytes();
    let n = members.len();
    let mut dec = dec;
    let mut results: Vec<(FileEntry, Vec<u8>)> = Vec::new();
    let mut j: usize = 0;
    proof {
        reveal(spec_tree_layout);
        assert(gpos.len() == n + 1 && gpos[0] == 78);
    }
    while j < n
        invariant
            j <= n,
            n == members@.len(),
            dec.wf(),
            dec.key() == key,
            dec.in_bytes() == garch,
            dec.compressed() == (compress@ is Some),
            compress@ matches Some(q) ==> q <= 11,
            gpos.len() == n + 1,
            dec.pos_at() == gpos[j as int],
            spec_tree_layout(key, garch, compress@, members@, gpos, gen, gdn),
            results@.len() == j,
            forall|i: int|
                0 <= i < j ==> {
                    let m = #[trigger] members@[i];
                    &&& results@[i].0.filetype == m.0
                    &&& results@[i].0.permissions == spec_perm_of_word(spec_perm_word(m.2))
                    &&& spec_parse_path(m.1@, false) is Ok
                    &&& results@[i].0.path.components() == spec_parse_path(m.1@, false)->Ok_0
                    &&& (m.0 == FileType::File ==> results@[i].1@ == m.3@)
                    &&& (m.0 == FileType::Directory ==> results@[i].1@.len() == 0)
                },
        decreases n - j,
    {
        let ghost gm = members@[j as int];
        proof {
            assert(spec_member_at(
                key,
                garch,
                compress@,
                gm,
                gpos[j as int],
                gpos[j as int + 1],
                gen[j as int],
                gdn[j as int],
            )) by {
                reveal(spec_tree_layout);
            }
        }
        let step = decode_member(
            &mut dec,
            Ghost(gm),
            Ghost(gpos[j as int + 1]),
            Ghost(gen[j as int]),
            Ghost(gdn[j as int]),
            compress,
        );
        let pair = match step {
            Ok(p) => p,
            Err(e) => {
                return Err(e);
            },
        };
        results.push(pair);
        j += 1;
    }
    dec.finish();
    Ok(results)
}

/// Archive round trip over a whole tree: encoding any sequence of members
/// — directories, and files with content of any size, the empty file
/// included — and decoding the stream with the same password reproduces
/// every member in order: the same kinds, the same resolved paths, the
/// permissions up to the zero sentinel, and byte-identical file contents.
pub fn archive_round_trip_tree(
    password: &str,
    params: KdfParams,
    compress: Option<u32>,
    members: &Vec<(FileType, String, Option<u32>, Vec<u8>)>,
) -> (r: Result<Vec<(FileEntry, Vec<u8>)>, Error>)
    requires
        params.valid(),
        compress matches Some(q) ==> q <= 11,
    ensures
        r matches Ok(out) ==> out@.len() == members@.len() && (forall|i: int|
            0 <= i < members@.len() ==> {
                let m = #[trigger] members@[i];
                &&& out@[i].0.filetype == m.0
                &&& out@[i].0.permissions == spec_perm_of_word(spec_perm_word(m.2))
                &&& spec_parse_path(m.1@, false) matches Ok(cs) && out@[i].0.path.components()
                    == cs
                &&& (m.0 == FileType::File ==> out@[i].1@ == m.3@)
                &&& (m.0 == FileType::Directory ==> out@[i].1@.len() == 0)
            }),
        (forall|i: int| 0 <= i < members@.len() ==> #[trigger] spec_member_parsed(members@[i]))
            ==> r is Ok,
{
    let (archive, layout) = match encode_tree(password, params, compress, members) {
        Ok(pair) => pair,
        Err(e) => {
            return Err(e);
        },
    };
    let ghost (salt, gpos, gen, gdn) = layout@;
    let ghost key = scrypt_key_of(password.spec_bytes(), salt, params);
    let dec = match Decoder::new(archive, password) {
        Ok(d) => d,
        Err(e) => {
            return Err(e);
        },
    };
    decode_tree(dec, members, Ghost(compress), Ghost((key, gpos, gen, gdn)))
}

} // verus!

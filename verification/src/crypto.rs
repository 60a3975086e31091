//! Key derivation and authenticated chunk framing.
//!
//! A [`Cipher`] holds the one 32-byte key of an archive session, derived
//! from the password with the memory-hard scrypt function.  Every chunk of
//! the stream is sealed with AES-256-GCM under a fresh random nonce and
//! framed as `length ‖ nonce ‖ ciphertext`; a zero length is the bare
//! two-byte terminator.

use vstd::prelude::*;
use crate::error::Error;
use crate::header::KdfParams;
use crate::wire::{spec_be16, spec_be16_val, push_be16, be16_val};
use rand::Rng;
use vstd::string::StringSliceAdditionalSpecFns;

verus! {

/// Greatest plaintext length of one chunk: with the 16-byte tag the
/// ciphertext still fits the 16-bit length field.
pub const MAX_CHUNK_LEN: usize = 65519;

/// The 32-byte key the key derivation function writes: a function of
/// password, salt and cost parameters alone.
pub uninterp spec fn scrypt_key_of(password: Seq<u8>, salt: Seq<u8>, params: KdfParams) -> Seq<
    u8,
>;

/// What sealing produces — ciphertext with the tag appended — a function
/// of key, nonce and plaintext alone.
pub uninterp spec fn seal_of(key: Seq<u8>, nonce: Seq<u8>, plain: Seq<u8>) -> Seq<u8>;

/// Relies on `scrypt::scrypt` with `scrypt::Params`: writes a 32-byte key
/// determined by password, salt and cost parameters alone.  Valid
/// parameters make the parameter constructor and the derivation total.
#[verifier::external_body]
fn scrypt_derive(password: &[u8], salt: &[u8], params: &KdfParams) -> (r: Vec<u8>)
    requires
        params.valid(),
    ensures
        r@ == scrypt_key_of(password@, salt@, *params),
        r@.len() == 32,
{
    let p = scrypt::Params::new(params.log_n, params.r, params.p).expect("checked parameters");
    let mut key = vec![0u8; 32];
    scrypt::scrypt(password, salt, &p, &mut key).expect("non-empty output");
    key
}

/// Relies on ring's AES-256-GCM sealing
/// (`aead::LessSafeKey::seal_in_place_append_tag`): deterministic in key,
/// nonce and plaintext, and appends the 16-byte tag.
#[verifier::external_body]
fn aead_seal(key: &Vec<u8>, nonce: &Vec<u8>, data: Vec<u8>) -> (r: Vec<u8>)
    requires
        key@.len() == 32,
        nonce@.len() == 12,
        data@.len() <= 65519,
    ensures
        r@ == seal_of(key@, nonce@, data@),
        r@.len() == data@.len() + 16,
{
    let k = ring::aead::UnboundKey::new(&ring::aead::AES_256_GCM, key).expect("32-byte key");
    let k = ring::aead::LessSafeKey::new(k);
    let n = ring::aead::Nonce::assume_unique_for_key(nonce.as_slice().try_into().expect("nonce"));
    let mut buf = data;
    k.seal_in_place_append_tag(n, ring::aead::Aad::empty(), &mut buf).expect("in-memory seal");
    buf
}

/// Relies on ring's AES-256-GCM opening (`aead::LessSafeKey::open_in_place`):
/// authenticates and decrypts in place; it succeeds exactly on what sealing
/// under the same key and nonce produces, and then returns the plaintext
/// that was sealed, 16 bytes shorter than its input.
#[verifier::external_body]
fn aead_open(key: &Vec<u8>, nonce: &Vec<u8>, data: Vec<u8>) -> (r: Result<Vec<u8>, ()>)
    requires
        key@.len() == 32,
        nonce@.len() == 12,
    ensures
        r matches Ok(v) ==> data@ == seal_of(key@, nonce@, v@) && v@.len() + 16 == data@.len(),
        r matches Ok(v) ==> forall|plain: Seq<u8>|
            data@ == seal_of(key@, nonce@, plain) ==> v@ == plain,
        r is Err ==> forall|plain: Seq<u8>| data@ != seal_of(key@, nonce@, plain),
{
    let k = ring::aead::UnboundKey::new(&ring::aead::AES_256_GCM, key).expect("32-byte key");
    let k = ring::aead::LessSafeKey::new(k);
    let n = ring::aead::Nonce::assume_unique_for_key(nonce.as_slice().try_into().expect("nonce"));
    let mut buf = data;
    match k.open_in_place(n, ring::aead::Aad::empty(), &mut buf) {
        Ok(plain) => Ok(plain.to_vec()),
        Err(_) => Err(()),
    }
}

/// Relies on rand's thread-local cryptographic generator: a fresh 64-byte
/// salt for a new archive.
#[verifier::external_body]
pub fn rand_salt() -> (r: Vec<u8>)
    ensures
        r@.len() == 64,
{
    let mut buf = vec![0u8; 64];
    rand::rng().fill_bytes(&mut buf);
    buf
}

/// Relies on rand's thread-local cryptographic generator: a fresh 96-bit
/// nonce for one chunk.
#[verifier::external_body]
fn rand_nonce() -> (r: Vec<u8>)
    ensures
        r@.len() == 12,
{
    let mut buf = vec![0u8; 12];
    rand::rng().fill_bytes(&mut buf);
    buf
}

/// Relies on `zeroize::Zeroize`: overwrites the bytes in place, in a way
/// the compiler will not elide, then clears the vector.
#[verifier::external_body]
fn zeroize_bytes(buf: &mut Vec<u8>)
    ensures
        final(buf)@.len() == 0,
{
    zeroize::Zeroize::zeroize(buf);
}

/// The bytes of one framed chunk carrying plaintext `plain`.
pub open spec fn spec_chunk_frame(key: Seq<u8>, nonce: Seq<u8>, plain: Seq<u8>) -> Seq<u8> {
    spec_be16((plain.len() + 16) as u16) + nonce + seal_of(key, nonce, plain)
}

/// The bare two-byte terminator chunk.
pub open spec fn spec_terminator() -> Seq<u8> {
    spec_be16(0)
}

/// Holds the one derived key of an archive session and frames all
/// chunk-level traffic.  The key leaves memory when the session ends.
pub struct Cipher {
    key: Vec<u8>,
}

impl Cipher {
    /// The derived key.
    pub closed spec fn spec_key(self) -> Seq<u8> {
        self.key@
    }

    /// A usable cipher holds a 32-byte key.
    pub open spec fn wf(self) -> bool {
        self.spec_key().len() == 32
    }

    /// Derives the session key from the password, the salt and the cost
    /// parameters.  Deterministic: the same inputs derive the same key.
    pub fn new(password: &str, salt: &[u8], params: &KdfParams) -> (r: Cipher)
        requires
            params.valid(),
        ensures
            r.wf(),
            r.spec_key() == scrypt_key_of(password.spec_bytes(), salt@, *params),
    {
        let key = scrypt_derive(password.as_bytes(), salt, params);
        Cipher { key }
    }

    /// Ends the session: wipes the key bytes from memory.  The wipe is an
    /// explicit step rather than a destructor, because a destructor can
    /// carry no verified contract here; the archive sessions call it from
    /// their `finish`.
    pub fn wipe(&mut self)
        ensures
            final(self).spec_key().len() == 0,
    {
        zeroize_bytes(&mut self.key);
    }

    /// Seals one chunk onto the output.  An empty payload writes exactly
    /// the two-byte terminator; anything else writes
    /// `length ‖ nonce ‖ ciphertext`, `2 + 12 + len + 16` bytes in all,
    /// under a fresh random nonce.
    pub fn write_chunk(&self, w: &mut Vec<u8>, data: Vec<u8>) -> (r: Result<(), Error>)
        requires
            self.wf(),
            data@.len() <= 65519,
        ensures
            r is Ok,
            data@.len() == 0 ==> final(w)@ == old(w)@ + spec_terminator(),
            data@.len() > 0 ==> exists|nonce: Seq<u8>|
                #![auto]
                nonce.len() == 12 && final(w)@ == old(w)@ + spec_chunk_frame(
                    self.spec_key(),
                    nonce,
                    data@,
                ),
            final(w)@.len() == old(w)@.len() + (if data@.len() == 0 {
                2int
            } else {
                data@.len() + 30int
            }),
    {
        if data.len() == 0 {
            push_be16(w, 0);
            return Ok(());
        }
        let ghost plain = data@;
        let nonce = rand_nonce();
        let ghost gnonce = nonce@;
        let mut sealed = aead_seal(&self.key, &nonce, data);
        let len = sealed.len() as u16;
        push_be16(w, len);
        let mut nonce_buf = nonce;
        w.append(&mut nonce_buf);
        w.append(&mut sealed);
        proof {
            assert(w@ =~= old(w)@ + spec_chunk_frame(self.spec_key(), gnonce, plain));
        }
        Ok(())
    }

    /// Reads one chunk from position `pos` of the input.  Fewer than two
    /// bytes left is the clean end of the chunk stream (`None`); a zero
    /// length is the terminator, an empty payload; otherwise the chunk is
    /// authenticated and decrypted, and any tampering — or a key derived
    /// from a wrong password — fails with a decryption error and returns
    /// no plaintext at all.
    pub fn read_chunk(&self, input: &Vec<u8>, pos: &mut usize) -> (out: Option<
        Result<Vec<u8>, Error>,
    >)
        requires
            self.wf(),
            *old(pos) <= input@.len(),
        ensures
            *final(pos) <= input@.len(),
            *final(pos) >= *old(pos),
            *old(pos) + 2 > input@.len() ==> out is None && *final(pos) == *old(pos),
            *old(pos) + 2 <= input@.len() ==> ({
                let p0 = *old(pos) as int;
                let l = spec_be16_val(input@[p0], input@[p0 + 1]) as int;
                &&& l == 0 ==> (out matches Some(res) && res matches Ok(v) && v@.len() == 0
                    && *final(pos) == p0 + 2)
                &&& (l > 0 && p0 + 14 + l > input@.len()) ==> (out matches Some(res)
                    && res matches Err(e) && e == Error::Io && *final(pos) == *old(pos))
                &&& (l > 0 && p0 + 14 + l <= input@.len()) ==> ({
                    let nonce = input@.subrange(p0 + 2, p0 + 14);
                    let ct = input@.subrange(p0 + 14, p0 + 14 + l);
                    &&& out is Some
                    &&& (out matches Some(res) ==> match res {
                        Ok(v) => ct == seal_of(self.spec_key(), nonce, v@) && v@.len() + 16 == l
                            && *final(pos) == p0 + 14 + l,
                        Err(e) => e == Error::Aes && *final(pos) == *old(pos) && (forall|
                            plain: Seq<u8>,
                        |
                            ct != seal_of(self.spec_key(), nonce, plain)),
                    })
                    &&& (forall|plain: Seq<u8>|
                        ct == seal_of(self.spec_key(), nonce, plain) ==> (out matches Some(res)
                            && (res matches Ok(v) && v@ == plain)))
                })
            }),
    {
        let p0 = *pos;
        if input.len() - p0 < 2 {
            return None;
        }
        let l = be16_val(input[p0], input[p0 + 1]) as usize;
        if l == 0 {
            *pos = p0 + 2;
            return Some(Ok(Vec::new()));
        }
        if input.len() - p0 - 2 < 12 + l {
            return Some(Err(Error::Io));
        }
        let nonce = vstd::slice::slice_to_vec(
            vstd::slice::slice_subrange(input.as_slice(), p0 + 2, p0 + 14),
        );
        let ct = vstd::slice::slice_to_vec(
            vstd::slice::slice_subrange(input.as_slice(), p0 + 14, p0 + 14 + l),
        );
        assert(nonce@ =~= input@.subrange(p0 as int + 2, p0 as int + 14));
        assert(ct@ =~= input@.subrange(p0 as int + 14, p0 as int + 14 + l as int));
        match aead_open(&self.key, &nonce, ct) {
            Ok(v) => {
                *pos = p0 + 14 + l;
                Some(Ok(v))
            },
            Err(_) => Some(Err(Error::Aes)),
        }
    }
}

} // verus!

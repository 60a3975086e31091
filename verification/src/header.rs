//! The fixed-layout archive header.
//!
//! Layout: a four byte magic identifier, the 64-byte salt, the three key
//! derivation cost parameters (`log_n`, then `r` and `p` big-endian), and
//! one byte of compression flag.

use vstd::prelude::*;
use vstd::arithmetic::power2::{pow2, lemma2_to64, lemma2_to64_rest, lemma_pow2_strictly_increases};
use vstd::bits::lemma_u64_shl_is_mul;
use crate::error::Error;
use crate::wire::{spec_be32, spec_be32_val, push_be32, be32_val, lemma_be32_round_trip};

verus! {

/// The number of bytes of salt in every archive.
pub const SALT_LEN: usize = 64;

/// The number of bytes of a serialized header.
pub const HEADER_LEN: usize = 78;

/// The cost parameters of the key derivation function: cost exponent
/// (log₂ of the work factor `n`), block size `r`, parallelism `p`.
#[derive(Debug, PartialEq, Eq, Structural, Clone, Copy)]
pub struct KdfParams {
    pub log_n: u8,
    pub r: u32,
    pub p: u32,
}

impl KdfParams {
    /// Jointly valid cost parameters: the conditions under which this
    /// format accepts them.  The cost exponent and `r` and `p` must be
    /// positive, the work factor `n = 2^log_n` must be expressible, the
    /// working memories of `128·r·n` and `128·r·p` bytes must both be
    /// addressable, and scrypt itself requires `r·p < 2^30`.
    pub open spec fn valid(self) -> bool {
        &&& self.r > 0
        &&& self.p > 0
        &&& 1 <= self.log_n < 64
        &&& 128 * (self.r as int) * pow2(self.log_n as nat) <= usize::MAX as int
        &&& (self.r as int) * (self.p as int) < 0x4000_0000
        &&& 128 * (self.r as int) * (self.p as int) <= usize::MAX as int
    }

    /// Checks the parameters, as [`KdfParams::valid`] says.
    pub fn check(&self) -> (b: bool)
        ensures
            b == self.valid(),
    {
        if self.r == 0 || self.p == 0 || self.log_n == 0 || self.log_n >= 64 {
            return false;
        }
        proof {
            lemma2_to64();
            lemma2_to64_rest();
            if (self.log_n as nat) < 63 {
                lemma_pow2_strictly_increases(self.log_n as nat, 63);
            }
            lemma_u64_shl_is_mul(1u64, self.log_n as u64);
        }
        let n: u64 = 1u64 << self.log_n;
        assert(n == pow2(self.log_n as nat));
        let r128: u64 = (self.r as u64) * 128;
        let total = match r128.checked_mul(n) {
            Some(v) => v,
            None => {
                proof {
                    assert((128 * (self.r as int)) * pow2(self.log_n as nat) > u64::MAX as int);
                    assert(usize::MAX as int <= u64::MAX as int);
                }
                return false;
            },
        };
        if total > usize::MAX as u64 {
            return false;
        }
        assert((self.r as int) * (self.p as int) <= 0xffff_ffff * 0xffff_ffff) by (nonlinear_arith)
            requires
                self.r <= 0xffff_ffffu32 && self.p <= 0xffff_ffffu32,
        ;
        let rp: u64 = (self.r as u64) * (self.p as u64);
        if rp >= 0x4000_0000 {
            return false;
        }
        assert(128 * (self.r as int) * (self.p as int) == (self.r as int) * (self.p as int)
            * 128) by (nonlinear_arith);
        rp * 128 <= usize::MAX as u64
    }
}

/// The four magic bytes that open every archive.
pub open spec fn spec_magic() -> Seq<u8> {
    seq![0xffu8, 0x41u8, 0x45u8, 0x46u8]
}

/// The serialized header.
pub open spec fn spec_header_bytes(salt: Seq<u8>, params: KdfParams, compress: bool) -> Seq<u8> {
    spec_magic() + salt + seq![params.log_n] + spec_be32(params.r) + spec_be32(params.p) + seq![
        if compress {
            1u8
        } else {
            0u8
        },
    ]
}

/// What parsing a header yields: the salt, the validated cost parameters
/// and the compression flag, or a failure for a short buffer, a wrong
/// magic, or parameters the key derivation function would not accept.
pub open spec fn spec_parse_header(bytes: Seq<u8>) -> Result<(Seq<u8>, KdfParams, bool), Error> {
    if bytes.len() < 78 {
        Err(Error::Io)
    } else if bytes.subrange(0, 4) != spec_magic() {
        Err(Error::Io)
    } else {
        let params = KdfParams {
            log_n: bytes[68],
            r: spec_be32_val(bytes[69], bytes[70], bytes[71], bytes[72]),
            p: spec_be32_val(bytes[73], bytes[74], bytes[75], bytes[76]),
        };
        if !params.valid() {
            Err(Error::Io)
        } else {
            Ok((bytes.subrange(4, 68), params, bytes[77] == 1))
        }
    }
}

/// Archive-level metadata, written once at archive start and immutable for
/// the archive's lifetime; together with the password it fully determines
/// the derived key.
#[derive(Debug)]
pub struct FileHeader {
    pub salt: Vec<u8>,
    pub params: KdfParams,
    pub compress: bool,
}

impl FileHeader {
    /// A header has a 64-byte salt.
    pub open spec fn wf(self) -> bool {
        self.salt@.len() == 64
    }

    pub fn new(salt: Vec<u8>, params: KdfParams, compress: bool) -> (r: FileHeader)
        requires
            salt@.len() == 64,
        ensures
            r.salt@ == salt@,
            r.params == params,
            r.compress == compress,
            r.wf(),
    {
        FileHeader { salt, params, compress }
    }

    /// Serializes the header onto the output.
    pub fn write_to(&self, w: &mut Vec<u8>)
        requires
            self.wf(),
        ensures
            final(w)@ == old(w)@ + spec_header_bytes(self.salt@, self.params, self.compress),
            final(w)@.len() == old(w)@.len() + 78,
    {
        w.push(0xff);
        w.push(0x41);
        w.push(0x45);
        w.push(0x46);
        let mut i: usize = 0;
        while i < 64
            invariant
                i <= 64,
                self.salt@.len() == 64,
                w@ == old(w)@ + spec_magic() + self.salt@.subrange(0, i as int),
            decreases 64 - i,
        {
            w.push(self.salt[i]);
            assert(w@ =~= old(w)@ + spec_magic() + self.salt@.subrange(0, i + 1));
            i += 1;
        }
        assert(self.salt@.subrange(0, 64) =~= self.salt@);
        w.push(self.params.log_n);
        push_be32(w, self.params.r);
        push_be32(w, self.params.p);
        if self.compress {
            w.push(1);
        } else {
            w.push(0);
        }
        assert(final(w)@ =~= old(w)@ + spec_header_bytes(self.salt@, self.params, self.compress));
    }

    /// Parses and validates the header at the front of the input.
    pub fn read_from(bytes: &[u8]) -> (r: Result<FileHeader, Error>)
        ensures
            match (r, spec_parse_header(bytes@)) {
                (Ok(h), Ok((salt, params, compress))) => {
                    &&& h.salt@ == salt
                    &&& h.params == params
                    &&& h.compress == compress
                    &&& h.wf()
                    &&& params.valid()
                },
                (Err(e1), Err(e2)) => e1 == e2,
                _ => false,
            },
    {
        if bytes.len() < 78 {
            return Err(Error::Io);
        }
        if !(bytes[0] == 0xff && bytes[1] == 0x41 && bytes[2] == 0x45 && bytes[3] == 0x46) {
            assert(bytes@.subrange(0, 4) != spec_magic());
            return Err(Error::Io);
        }
        assert(bytes@.subrange(0, 4) =~= spec_magic());
        let salt = vstd::slice::slice_to_vec(vstd::slice::slice_subrange(bytes, 4, 68));
        assert(salt@ =~= bytes@.subrange(4, 68));
        let params = KdfParams {
            log_n: bytes[68],
            r: be32_val(bytes[69], bytes[70], bytes[71], bytes[72]),
            p: be32_val(bytes[73], bytes[74], bytes[75], bytes[76]),
        };
        if !params.check() {
            return Err(Error::Io);
        }
        let compress = bytes[77] == 1;
        Ok(FileHeader { salt, params, compress })
    }
}

/// Round trip: parsing a serialized header with valid parameters yields
/// the salt, the parameters and the flag that were written.
pub proof fn lemma_header_round_trip(salt: Seq<u8>, params: KdfParams, compress: bool)
    requires
        salt.len() == 64,
        params.valid(),
    ensures
        spec_parse_header(spec_header_bytes(salt, params, compress)) == Ok::<_, Error>(
            (salt, params, compress),
        ),
        spec_header_bytes(salt, params, compress).len() == 78,
{
    let bytes = spec_header_bytes(salt, params, compress);
    assert(bytes.subrange(0, 4) =~= spec_magic());
    assert(bytes.subrange(4, 68) =~= salt);
    assert(bytes[68] == params.log_n);
    lemma_be32_round_trip(params.r);
    lemma_be32_round_trip(params.p);
    assert(bytes[69] == spec_be32(params.r)[0]);
    assert(bytes[70] == spec_be32(params.r)[1]);
    assert(bytes[71] == spec_be32(params.r)[2]);
    assert(bytes[72] == spec_be32(params.r)[3]);
    assert(bytes[73] == spec_be32(params.p)[0]);
    assert(bytes[74] == spec_be32(params.p)[1]);
    assert(bytes[75] == spec_be32(params.p)[2]);
    assert(bytes[76] == spec_be32(params.p)[3]);
    assert(bytes[77] == (if compress { 1u8 } else { 0u8 }));
}

} // verus!

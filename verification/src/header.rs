//! Codec for the database file header.
//!
//! The header starts with the 4-byte magic constant `CSGM`, followed by a
//! big-endian `version`, the `number_of_objects` count, the total header
//! length `header_len` (always a multiple of 16 and at least 20, so at
//! least 32), and an opaque `extra_data` region that fills the header out
//! to `header_len` bytes.

use crate::wire::{
    lemma_u32_be_bytes_value, lemma_u64_be_bytes_value, push_u32_be, push_u64_be, push_zeros,
    spec_align16, spec_u32_from_be_bytes, spec_u32_to_be_bytes, spec_u64_from_be_bytes,
    spec_u64_to_be_bytes, u32_from_be_at, u64_from_be_at,
};
use vstd::prelude::*;
use vstd::slice::{slice_subrange, slice_to_vec};

verus! {

/// The ways decoding a header can fail.
#[derive(Debug, Clone, Copy, PartialEq, Eq, Structural)]
pub enum HeaderDecodeError {
    /// The first four bytes are not the magic constant.
    InvalidMagic,
    /// The buffer is shorter than the fixed fields or than the declared
    /// header length.
    TooShort,
    /// The version field holds anything but 1.
    UnsupportedVersion,
    /// The declared header length is not a multiple of 16, or is shorter
    /// than the fixed fields.
    InvalidPadding,
}

/// The database file header.
#[derive(Debug)]
pub struct Header {
    pub version: u32,
    pub number_of_objects: u64,
    pub header_len: u32,
    pub extra_data: Vec<u8>,
}

/// The mathematical content of a [`Header`].
pub ghost struct HeaderModel {
    pub version: u32,
    pub number_of_objects: u64,
    pub header_len: u32,
    pub extra_data: Seq<u8>,
}

impl View for Header {
    type V = HeaderModel;

    open spec fn view(&self) -> HeaderModel {
        HeaderModel {
            version: self.version,
            number_of_objects: self.number_of_objects,
            header_len: self.header_len,
            extra_data: self.extra_data@,
        }
    }
}

/// The 4-byte magic constant, ASCII `CSGM`.
pub open spec fn spec_magic() -> Seq<u8> {
    seq![0x43u8, 0x53u8, 0x47u8, 0x4du8]
}

/// The header length that encoding a header with `extra_len` bytes of
/// extra data produces: the fixed 20 bytes plus the extra data, rounded
/// up to a multiple of 16.
pub open spec fn spec_header_len_of(extra_len: int) -> int {
    spec_align16(20 + extra_len)
}

/// The encoded form of a header: magic, version, object count and header
/// length in big-endian order, then the extra data, zero-padded out to
/// the computed header length.
pub open spec fn spec_header_encode(version: u32, count: u64, extra: Seq<u8>) -> Seq<u8> {
    let hl = spec_header_len_of(extra.len() as int);
    spec_magic() + spec_u32_to_be_bytes(version) + spec_u64_to_be_bytes(count)
        + spec_u32_to_be_bytes(hl as u32) + extra + Seq::new((hl - 20 - extra.len()) as nat,
        |i: int| 0u8,
    )
}

/// What reading only the version field from a buffer yields.
pub open spec fn spec_partial_version(b: Seq<u8>) -> Result<u32, HeaderDecodeError> {
    if b.len() < 8 {
        Err(HeaderDecodeError::TooShort)
    } else if b.subrange(0, 4) != spec_magic() {
        Err(HeaderDecodeError::InvalidMagic)
    } else {
        Ok(spec_u32_from_be_bytes(b.subrange(4, 8)))
    }
}

/// What decoding a full header from a buffer yields.
///
/// The checks run in order: fixed-field length, magic, version, declared
/// length against the buffer, then the alignment invariant on the
/// declared length. A declared length shorter than the 20 fixed bytes
/// breaks the same alignment invariant, so it is classified as
/// `InvalidPadding` as well.
pub open spec fn spec_header_decode(b: Seq<u8>) -> Result<HeaderModel, HeaderDecodeError> {
    if b.len() < 20 {
        Err(HeaderDecodeError::TooShort)
    } else if b.subrange(0, 4) != spec_magic() {
        Err(HeaderDecodeError::InvalidMagic)
    } else if spec_u32_from_be_bytes(b.subrange(4, 8)) != 1 {
        Err(HeaderDecodeError::UnsupportedVersion)
    } else {
        let count = spec_u64_from_be_bytes(b.subrange(8, 16));
        let hl = spec_u32_from_be_bytes(b.subrange(16, 20));
        if b.len() < hl {
            Err(HeaderDecodeError::TooShort)
        } else if hl % 16 != 0 || hl < 20 {
            Err(HeaderDecodeError::InvalidPadding)
        } else {
            Ok(
                HeaderModel {
                    version: 1,
                    number_of_objects: count,
                    header_len: hl,
                    extra_data: b.subrange(20, hl as int),
                },
            )
        }
    }
}

/// True when the first four bytes of `data` are the magic constant.
fn has_magic(data: &[u8]) -> (r: bool)
    requires
        data@.len() >= 4,
    ensures
        r == (data@.subrange(0, 4) == spec_magic()),
{
    let r = data[0] == 0x43 && data[1] == 0x53 && data[2] == 0x47 && data[3] == 0x4d;
    proof {
        let sub = data@.subrange(0, 4);
        assert(sub[0] == data@[0] && sub[1] == data@[1] && sub[2] == data@[2] && sub[3]
            == data@[3]);
        if r {
            assert(sub =~= spec_magic());
        } else {
            assert(sub != spec_magic());
        }
    }
    r
}

impl Header {
    /// Read the version field alone, after validating the magic constant,
    /// so that a caller can dispatch on the version before committing to
    /// a full parse.
    pub fn partial_version(data: &[u8]) -> (r: Result<u32, HeaderDecodeError>)
        ensures
            r == spec_partial_version(data@),
    {
        if data.len() < 8 {
            return Err(HeaderDecodeError::TooShort);
        }
        if !has_magic(data) {
            return Err(HeaderDecodeError::InvalidMagic);
        }
        Ok(u32_from_be_at(data, 4))
    }

    /// A fresh version-1 header. The stored `header_len` is a placeholder:
    /// encoding computes the real value from the extra data.
    pub fn new(number_of_objects: u64, extra_data: Vec<u8>) -> (r: Self)
        ensures
            r.version == 1,
            r.number_of_objects == number_of_objects,
            r.header_len == 0,
            r.extra_data@ == extra_data@,
    {
        Self { version: 1, number_of_objects, header_len: 0, extra_data }
    }

    /// Decode a header from the start of `value`.
    pub fn decode(value: &[u8]) -> (r: Result<Header, HeaderDecodeError>)
        ensures
            (r matches Ok(h) ==> spec_header_decode(value@) matches Ok(m) && h@ == m),
            (r matches Err(e) ==> spec_header_decode(value@) == Err::<HeaderModel,
            HeaderDecodeError>(e)),
    {
        if value.len() < 20 {
            return Err(HeaderDecodeError::TooShort);
        }
        if !has_magic(value) {
            return Err(HeaderDecodeError::InvalidMagic);
        }
        let version = u32_from_be_at(value, 4);
        if version != 1 {
            return Err(HeaderDecodeError::UnsupportedVersion);
        }
        let number_of_objects = u64_from_be_at(value, 8);
        let header_len = u32_from_be_at(value, 16);
        if (value.len() as u64) < header_len as u64 {
            return Err(HeaderDecodeError::TooShort);
        }
        if header_len % 16 != 0 || header_len < 20 {
            return Err(HeaderDecodeError::InvalidPadding);
        }
        let extra_data = slice_to_vec(slice_subrange(value, 20, header_len as usize));
        Ok(Header { version, number_of_objects, header_len, extra_data })
    }

    /// Encode the header: magic, version, object count, computed header
    /// length, extra data, zero padding. The result is exactly
    /// `spec_header_len_of(extra_data.len())` bytes long.
    pub fn to_bytes(&self) -> (r: Vec<u8>)
        requires
            self.extra_data@.len() + 36 <= u32::MAX,
        ensures
            r@ == spec_header_encode(self.version, self.number_of_objects, self.extra_data@),
            r@.len() == spec_header_len_of(self.extra_data@.len() as int),
    {
        let mut out: Vec<u8> = Vec::new();
        out.push(0x43);
        out.push(0x53);
        out.push(0x47);
        out.push(0x4d);
        assert(out@ =~= spec_magic());
        push_u32_be(&mut out, self.version);
        push_u64_be(&mut out, self.number_of_objects);
        let before_padding: u64 = 20 + self.extra_data.len() as u64;
        let full_length: u64 = crate::wire::align16(before_padding);
        let padding: u64 = full_length - before_padding;
        push_u32_be(&mut out, full_length as u32);
        out.extend_from_slice(self.extra_data.as_slice());
        push_zeros(&mut out, padding as usize);
        proof {
            crate::wire::lemma_align16(before_padding as int);
            assert(out@ =~= spec_header_encode(
                self.version,
                self.number_of_objects,
                self.extra_data@,
            ));
        }
        out
    }
}

/// Decoding an encoded header yields version 1, the same object count,
/// the computed header length, and the extra data padded with zeros out
/// to that length; when the extra data already fills the header to a
/// 16-byte boundary, it comes back byte-for-byte.
pub proof fn lemma_header_round_trip(count: u64, extra: Seq<u8>)
    requires
        extra.len() + 36 <= u32::MAX,
    ensures
        ({
            let hl = spec_header_len_of(extra.len() as int);
            let padded = extra + Seq::new((hl - 20 - extra.len()) as nat, |i: int| 0u8);
            spec_header_decode(spec_header_encode(1, count, extra)) == Ok::<HeaderModel,
            HeaderDecodeError>(
                HeaderModel {
                    version: 1,
                    number_of_objects: count,
                    header_len: hl as u32,
                    extra_data: padded,
                },
            )
        }),
        (20 + extra.len()) % 16 == 0 ==> spec_header_decode(spec_header_encode(1, count, extra))
            == Ok::<HeaderModel, HeaderDecodeError>(
            HeaderModel {
                version: 1,
                number_of_objects: count,
                header_len: spec_header_len_of(extra.len() as int) as u32,
                extra_data: extra,
            },
        ),
{
    crate::wire::lemma_align16(20 + extra.len() as int);
    let hl = spec_header_len_of(extra.len() as int);
    let pad = Seq::new((hl - 20 - extra.len()) as nat, |i: int| 0u8);
    let b = spec_header_encode(1, count, extra);
    lemma_u32_be_bytes_value(1);
    lemma_u32_be_bytes_value(hl as u32);
    lemma_u64_be_bytes_value(count);
    assert(b.len() == hl);
    assert(b.subrange(0, 4) =~= spec_magic());
    assert(b.subrange(4, 8) =~= spec_u32_to_be_bytes(1));
    assert(b.subrange(8, 16) =~= spec_u64_to_be_bytes(count));
    assert(b.subrange(16, 20) =~= spec_u32_to_be_bytes(hl as u32));
    assert(b.subrange(20, hl as int) =~= extra + pad);
    if (20 + extra.len()) % 16 == 0 {
        assert(extra + pad =~= extra);
    }
}

/// Decoding a header is local: it reads only the `header_len` bytes of
/// the header region, so bytes appended after an exactly-sized header
/// image change nothing.
pub proof fn lemma_header_decode_prefix(hb: Seq<u8>, rest: Seq<u8>)
    requires
        spec_header_decode(hb) matches Ok(h) && h.header_len == hb.len(),
    ensures
        spec_header_decode(hb + rest) == spec_header_decode(hb),
        spec_partial_version(hb + rest) == spec_partial_version(hb),
{
    let b = hb + rest;
    assert(b.subrange(0, 4) =~= hb.subrange(0, 4));
    assert(b.subrange(4, 8) =~= hb.subrange(4, 8));
    assert(b.subrange(8, 16) =~= hb.subrange(8, 16));
    assert(b.subrange(16, 20) =~= hb.subrange(16, 20));
    let hl = spec_u32_from_be_bytes(hb.subrange(16, 20));
    assert(b.subrange(20, hl as int) =~= hb.subrange(20, hl as int));
}

} // verus!

//! Codec for raw objects: the on-disk encoded form of one object.
//!
//! A raw object is a 16-byte sub-header (`format`, `compression`,
//! `entry_type`, `entry_size` as big-endian `u16`, then `length` as a
//! big-endian `u64`), followed by `length - 16` bytes of payload —
//! optionally zlib-compressed — and zero padding out to the next 16-byte
//! boundary. `length` records the unpadded size (sub-header plus
//! payload), which can differ from the padded on-disk footprint. After
//! decompression the payload splits into entries of exactly `entry_size`
//! bytes each.
//!
//! Two conditions are classified as `InvalidPadding`: a decode buffer
//! whose length is not a multiple of 16 (raw objects always occupy a
//! 16-aligned footprint on disk), and a payload that does not split
//! evenly into `entry_size`-byte entries (a trailing partial entry is
//! rejected rather than silently dropped).

use crate::wire::{
    lemma_u16_be_bytes_value, lemma_u64_be_bytes_value, push_u16_be, push_u64_be, push_zeros,
    spec_align16, spec_u16_from_be_bytes, spec_u16_to_be_bytes, spec_u64_from_be_bytes,
    spec_u64_to_be_bytes, u16_from_be_at, u64_from_be_at,
};
use vstd::prelude::*;
use vstd::slice::{slice_subrange, slice_to_vec};

verus! {

/// The ways decoding a raw object can fail.
#[derive(Debug, Clone, Copy, PartialEq, Eq, Structural)]
pub enum ObjectDecodeError {
    /// The buffer is shorter than the sub-header, shorter than the
    /// declared length, or the declared length leaves no payload.
    TooShort,
    /// The buffer is not 16-aligned, the entry size is zero, or the
    /// payload does not split evenly into entries.
    InvalidPadding,
    /// The compression code is not supported.
    UnsupportedCompression(u16),
    /// The compressed payload is malformed.
    CompressionError,
}

/// A raw object: the decoded sub-header fields plus the payload already
/// decompressed and split into fixed-size entries.
#[derive(Debug)]
pub struct RawObject {
    pub format: u16,
    pub compression: u16,
    pub entry_type: u16,
    pub entry_size: u16,
    /// The unpadded length recorded on disk: sub-header plus payload.
    pub length: u64,
    pub data: Vec<Vec<u8>>,
}

/// The mathematical content of a [`RawObject`].
pub ghost struct RawObjectModel {
    pub format: u16,
    pub compression: u16,
    pub entry_type: u16,
    pub entry_size: u16,
    pub length: u64,
    pub data: Seq<Seq<u8>>,
}

impl View for RawObject {
    type V = RawObjectModel;

    open spec fn view(&self) -> RawObjectModel {
        RawObjectModel {
            format: self.format,
            compression: self.compression,
            entry_type: self.entry_type,
            entry_size: self.entry_size,
            length: self.length,
            data: self.data.deep_view(),
        }
    }
}

/// What inflating a zlib stream yields: the decompressed bytes, or
/// nothing when the stream is malformed. The result depends on the input
/// bytes alone.
pub uninterp spec fn spec_zlib_inflate(input: Seq<u8>) -> Option<Seq<u8>>;

/// Relies on flate2's `read::ZlibDecoder` driven by `read_to_end` over a
/// byte slice: inflating a zlib stream is a function of the input bytes
/// alone, and a malformed stream reports an error.
#[verifier::external_body]
fn zlib_inflate(input: &[u8]) -> (r: Option<Vec<u8>>)
    ensures
        r is Some <==> spec_zlib_inflate(input@) is Some,
        (r matches Some(v) ==> spec_zlib_inflate(input@) == Some(v@)),
{
    let mut decoder = flate2::read::ZlibDecoder::new(input);
    let mut decoded = Vec::new();
    match std::io::Read::read_to_end(&mut decoder, &mut decoded) {
        Ok(_) => Some(decoded),
        Err(_) => None,
    }
}

/// A payload split into consecutive `size`-byte entries.
pub open spec fn spec_chunks(payload: Seq<u8>, size: int) -> Seq<Seq<u8>>
    recommends
        size > 0,
        payload.len() as int % size == 0,
{
    Seq::new(
        (payload.len() as int / size) as nat,
        |i: int| payload.subrange(size * i, size * i + size),
    )
}

/// What decompressing a raw payload under a compression code yields.
pub open spec fn spec_decode_data(compression: u16, input: Seq<u8>) -> Result<
    Seq<u8>,
    ObjectDecodeError,
> {
    if compression == 0 {
        Ok(input)
    } else if compression == 1 {
        match spec_zlib_inflate(input) {
            Some(payload) => Ok(payload),
            None => Err(ObjectDecodeError::CompressionError),
        }
    } else {
        Err(ObjectDecodeError::UnsupportedCompression(compression))
    }
}

/// What splitting a decompressed payload into entries yields: the model
/// of the decoded object, or `InvalidPadding` when the payload does not
/// divide into `entry_size`-byte entries.
pub open spec fn spec_split_entries(
    format: u16,
    compression: u16,
    entry_type: u16,
    entry_size: u16,
    length: u64,
    payload: Seq<u8>,
) -> Result<RawObjectModel, ObjectDecodeError> {
    if entry_size == 0 || payload.len() as int % (entry_size as int) != 0 {
        Err(ObjectDecodeError::InvalidPadding)
    } else {
        Ok(
            RawObjectModel {
                format,
                compression,
                entry_type,
                entry_size,
                length,
                data: spec_chunks(payload, entry_size as int),
            },
        )
    }
}

/// What decoding a raw object from a buffer yields.
pub open spec fn spec_raw_object_decode(b: Seq<u8>) -> Result<RawObjectModel, ObjectDecodeError> {
    if b.len() < 16 {
        Err(ObjectDecodeError::TooShort)
    } else {
        let format = spec_u16_from_be_bytes(b.subrange(0, 2));
        let compression = spec_u16_from_be_bytes(b.subrange(2, 4));
        let entry_type = spec_u16_from_be_bytes(b.subrange(4, 6));
        let entry_size = spec_u16_from_be_bytes(b.subrange(6, 8));
        let length = spec_u64_from_be_bytes(b.subrange(8, 16));
        if b.len() < length {
            Err(ObjectDecodeError::TooShort)
        } else if length <= 16 {
            Err(ObjectDecodeError::TooShort)
        } else if b.len() % 16 != 0 {
            Err(ObjectDecodeError::InvalidPadding)
        } else {
            match spec_decode_data(compression, b.subrange(16, length as int)) {
                Ok(payload) => spec_split_entries(
                    format,
                    compression,
                    entry_type,
                    entry_size,
                    length,
                    payload,
                ),
                Err(e) => Err(e),
            }
        }
    }
}

/// The concatenation of a sequence of entries.
pub open spec fn spec_concat(data: Seq<Seq<u8>>) -> Seq<u8>
    decreases data.len(),
{
    if data.len() == 0 {
        Seq::empty()
    } else {
        spec_concat(data.drop_last()) + data.last()
    }
}

/// The encoded bytes of a raw object: the four `u16` fields, the
/// computed unpadded length, the concatenated entries, and zero padding
/// out to the next 16-byte boundary.
pub open spec fn spec_raw_object_encode(m: RawObjectModel) -> Seq<u8> {
    let unpadded = 16 + m.data.len() * (m.entry_size as int);
    let padded = spec_align16(unpadded);
    spec_u16_to_be_bytes(m.format) + spec_u16_to_be_bytes(m.compression) + spec_u16_to_be_bytes(
        m.entry_type,
    ) + spec_u16_to_be_bytes(m.entry_size) + spec_u64_to_be_bytes(unpadded as u64) + spec_concat(
        m.data,
    ) + Seq::new((padded - unpadded) as nat, |i: int| 0u8)
}

/// Decompress a raw payload according to its compression code:
/// 0 is stored as-is, 1 is zlib.
fn decode_data(compression: u16, input_data: &[u8]) -> (r: Result<Vec<u8>, ObjectDecodeError>)
    ensures
        (r matches Ok(v) ==> spec_decode_data(compression, input_data@) == Ok::<Seq<u8>,
        ObjectDecodeError>(v@)),
        (r matches Err(e) ==> spec_decode_data(compression, input_data@) == Err::<Seq<u8>,
        ObjectDecodeError>(e)),
{
    if compression == 0 {
        Ok(slice_to_vec(input_data))
    } else if compression == 1 {
        match zlib_inflate(input_data) {
            Some(decoded) => Ok(decoded),
            None => Err(ObjectDecodeError::CompressionError),
        }
    } else {
        Err(ObjectDecodeError::UnsupportedCompression(compression))
    }
}

/// Split a decompressed payload into `entry_size`-byte entries.
fn split_entries(
    format: u16,
    compression: u16,
    entry_type: u16,
    entry_size: u16,
    length: u64,
    payload: &[u8],
) -> (r: Result<RawObject, ObjectDecodeError>)
    ensures
        (r matches Ok(o) ==> spec_split_entries(
            format,
            compression,
            entry_type,
            entry_size,
            length,
            payload@,
        ) matches Ok(m) && o@ == m),
        (r matches Err(e) ==> spec_split_entries(
            format,
            compression,
            entry_type,
            entry_size,
            length,
            payload@,
        ) == Err::<RawObjectModel, ObjectDecodeError>(e)),
{
    if entry_size == 0 {
        return Err(ObjectDecodeError::InvalidPadding);
    }
    let payload_len = payload.len();
    let size = entry_size as usize;
    if payload_len % size != 0 {
        return Err(ObjectDecodeError::InvalidPadding);
    }
    let count = payload_len / size;
    let mut data: Vec<Vec<u8>> = Vec::new();
    let mut i: usize = 0;
    while i < count
        invariant
            i <= count,
            size == entry_size,
            size > 0,
            count == payload@.len() as int / size as int,
            payload@.len() as int % (size as int) == 0,
            payload@.len() <= usize::MAX,
            data@.len() == i,
            forall|j: int|
                0 <= j < i ==> #[trigger] data.deep_view()[j] == payload@.subrange(
                    size * j,
                    size * j + size,
                ),
        decreases count - i,
    {
        proof {
            assert(size * i + size <= size * count) by (nonlinear_arith)
                requires
                    i < count,
                    size > 0,
            ;
            assert(size * count <= payload@.len()) by (nonlinear_arith)
                requires
                    count == payload@.len() as int / size as int,
                    size > 0,
            ;
        }
        let entry = slice_to_vec(slice_subrange(payload, size * i, size * i + size));
        let ghost prev_dv = data.deep_view();
        data.push(entry);
        proof {
            assert(data.deep_view()[i as int] == payload@.subrange(
                size * (i as int),
                size * (i as int) + size,
            ));
            assert(forall|j: int| 0 <= j < i ==> #[trigger] data.deep_view()[j] == prev_dv[j]);
        }
        i = i + 1;
    }
    let result = RawObject { format, compression, entry_type, entry_size, length, data };
    proof {
        assert(result@.data =~~= spec_chunks(payload@, entry_size as int));
    }
    Ok(result)
}

impl RawObject {
    /// A fresh raw object with the given sub-header fields and no
    /// entries. The stored `length` is a placeholder: encoding computes
    /// the real value from the entries.
    pub fn new(format: u16, compression: u16, entry_type: u16, entry_size: u16) -> (r: Self)
        ensures
            r@ == (RawObjectModel {
                format,
                compression,
                entry_type,
                entry_size,
                length: 0u64,
                data: Seq::<Seq<u8>>::empty(),
            }),
    {
        let r = Self { format, compression, entry_type, entry_size, length: 0, data: Vec::new() };
        proof {
            assert(r@.data =~~= Seq::<Seq<u8>>::empty());
        }
        r
    }

    /// Append one entry to the object.
    pub fn add_data(&mut self, entry: Vec<u8>)
        ensures
            final(self)@ == (RawObjectModel { data: old(self)@.data.push(entry@), ..old(self)@ }),
    {
        self.data.push(entry);
        proof {
            assert(self@.data =~~= old(self)@.data.push(entry@));
        }
    }

    /// Decode a raw object from `value`.
    ///
    /// `value` must hold the whole 16-aligned on-disk footprint of the
    /// object (trailing bytes beyond the padded footprint are ignored);
    /// the declared unpadded `length` selects how much of it is payload.
    pub fn decode(value: &[u8]) -> (r: Result<Self, ObjectDecodeError>)
        ensures
            (r matches Ok(o) ==> spec_raw_object_decode(value@) matches Ok(m) && o@ == m),
            (r matches Err(e) ==> spec_raw_object_decode(value@) == Err::<RawObjectModel,
            ObjectDecodeError>(e)),
    {
        if value.len() < 16 {
            return Err(ObjectDecodeError::TooShort);
        }
        let format = u16_from_be_at(value, 0);
        let compression = u16_from_be_at(value, 2);
        let entry_type = u16_from_be_at(value, 4);
        let entry_size = u16_from_be_at(value, 6);
        let length = u64_from_be_at(value, 8);
        if (value.len() as u64) < length {
            return Err(ObjectDecodeError::TooShort);
        }
        if length <= 16 {
            return Err(ObjectDecodeError::TooShort);
        }
        if value.len() % 16 != 0 {
            return Err(ObjectDecodeError::InvalidPadding);
        }
        let raw_payload = slice_subrange(value, 16, length as usize);
        match decode_data(compression, raw_payload) {
            Ok(payload) => split_entries(
                format,
                compression,
                entry_type,
                entry_size,
                length,
                payload.as_slice(),
            ),
            Err(e) => Err(e),
        }
    }

    /// Encode the object: sub-header with the computed unpadded length,
    /// entries in order, zero padding to the next 16-byte boundary.
    ///
    /// Only uncompressed objects can be encoded; every entry must hold
    /// exactly `entry_size` bytes.
    pub fn to_bytes(&self) -> (r: Result<Vec<u8>, ObjectDecodeError>)
        requires
            16 + self.data@.len() * (self.entry_size as int) + 15 <= usize::MAX,
        ensures
            (r matches Ok(bytes) ==> self.compression == 0 && (forall|i: int|
                0 <= i < self@.data.len() ==> (#[trigger] self@.data[i]).len()
                    == self.entry_size) && bytes@ == spec_raw_object_encode(self@)),
            (r matches Err(e) ==> (e == ObjectDecodeError::UnsupportedCompression(self.compression)
                && self.compression != 0) || (e == ObjectDecodeError::InvalidPadding
                && self.compression == 0 && exists|i: int|
                0 <= i < self@.data.len() && (#[trigger] self@.data[i]).len()
                    != self.entry_size)),
    {
        if self.compression != 0 {
            return Err(ObjectDecodeError::UnsupportedCompression(self.compression));
        }
        let mut out: Vec<u8> = Vec::new();
        push_u16_be(&mut out, self.format);
        push_u16_be(&mut out, self.compression);
        push_u16_be(&mut out, self.entry_type);
        push_u16_be(&mut out, self.entry_size);
        let entry_count = self.data.len();
        let size = self.entry_size as usize;
        proof {
            assert(entry_count * size == self.data@.len() * (self.entry_size as int));
        }
        let raw_length: usize = 16 + entry_count * size;
        let full_length: u64 = crate::wire::align16(raw_length as u64);
        let padding_len: usize = (full_length as usize) - raw_length;
        push_u64_be(&mut out, raw_length as u64);
        let ghost header = spec_u16_to_be_bytes(self.format) + spec_u16_to_be_bytes(
            self.compression,
        ) + spec_u16_to_be_bytes(self.entry_type) + spec_u16_to_be_bytes(self.entry_size)
            + spec_u64_to_be_bytes(raw_length as u64);
        assert(out@ =~= header);
        let mut i: usize = 0;
        while i < entry_count
            invariant
                i <= entry_count,
                entry_count == self.data@.len(),
                size == self.entry_size,
                self.compression == 0,
                out@ == header + spec_concat(self@.data.take(i as int)),
                forall|j: int|
                    0 <= j < i ==> (#[trigger] self@.data[j]).len() == self.entry_size,
            decreases entry_count - i,
        {
            let entry = &self.data[i];
            if entry.len() != size {
                proof {
                    assert(self@.data[i as int] =~= entry@);
                    let ii = i as int;
                    assert(0 <= ii < self@.data.len() && (self@.data[ii]).len()
                        != self.entry_size);
                    assert(exists|j: int|
                        0 <= j < self@.data.len() && (#[trigger] self@.data[j]).len()
                            != self.entry_size);
                }
                return Err(ObjectDecodeError::InvalidPadding);
            }
            out.extend_from_slice(entry.as_slice());
            proof {
                let pre = self@.data.take(i as int);
                let post = self@.data.take(i + 1);
                assert(post.drop_last() =~= pre);
                assert(post.last() == self@.data[i as int]);
                assert(out@ =~= header + spec_concat(post));
            }
            i = i + 1;
        }
        push_zeros(&mut out, padding_len);
        proof {
            crate::wire::lemma_align16(raw_length as int);
            assert(self@.data.take(entry_count as int) =~= self@.data);
            assert(out@ =~= spec_raw_object_encode(self@));
        }
        Ok(out)
    }
}

/// The concatenation of `n` entries of `size` bytes each is `n * size`
/// bytes long.
pub proof fn lemma_concat_len(data: Seq<Seq<u8>>, size: int)
    requires
        forall|i: int| 0 <= i < data.len() ==> (#[trigger] data[i]).len() == size,
    ensures
        spec_concat(data).len() == data.len() * size,
    decreases data.len(),
{
    if data.len() > 0 {
        lemma_concat_len(data.drop_last(), size);
        assert((data.len() - 1) * size + size == data.len() * size) by (nonlinear_arith);
    }
}

/// Entry `i` of a concatenation of `size`-byte entries occupies bytes
/// `size*i .. size*i + size`.
pub proof fn lemma_concat_chunk(data: Seq<Seq<u8>>, size: int, i: int)
    requires
        size > 0,
        forall|k: int| 0 <= k < data.len() ==> (#[trigger] data[k]).len() == size,
        0 <= i < data.len(),
    ensures
        spec_concat(data).subrange(size * i, size * i + size) == data[i],
    decreases data.len(),
{
    lemma_concat_len(data, size);
    lemma_concat_len(data.drop_last(), size);
    assert(size * i + size <= data.len() * size) by (nonlinear_arith)
        requires
            size > 0,
            i < data.len(),
    ;
    if i == data.len() - 1 {
        assert(size * i == (data.len() - 1) * size) by (nonlinear_arith)
            requires
                i == data.len() - 1,
        ;
        assert(spec_concat(data).subrange(size * i, size * i + size) =~= data.last());
    } else {
        lemma_concat_chunk(data.drop_last(), size, i);
        assert(size * i + size <= (data.len() - 1) * size) by (nonlinear_arith)
            requires
                size > 0,
                i < data.len() - 1,
        ;
        assert(spec_concat(data).subrange(size * i, size * i + size) =~= spec_concat(
            data.drop_last(),
        ).subrange(size * i, size * i + size));
    }
}

/// Raw-object round trip: decoding an encoded object yields the same
/// fields and entries, with the recorded length equal to the unpadded
/// size `16 + count * entry_size`. Holds for any uncompressed object
/// with at least one entry, each of exactly `entry_size > 0` bytes.
pub proof fn lemma_raw_object_round_trip(m: RawObjectModel)
    requires
        m.compression == 0,
        m.entry_size > 0,
        m.data.len() >= 1,
        forall|i: int| 0 <= i < m.data.len() ==> (#[trigger] m.data[i]).len() == m.entry_size,
        16 + m.data.len() * (m.entry_size as int) <= u64::MAX,
    ensures
        spec_raw_object_decode(spec_raw_object_encode(m)) == Ok::<RawObjectModel,
        ObjectDecodeError,
        >(
            RawObjectModel {
                length: (16 + m.data.len() * (m.entry_size as int)) as u64,
                ..m
            },
        ),
{
    let size = m.entry_size as int;
    let unpadded = 16 + m.data.len() * size;
    let padded = spec_align16(unpadded);
    let b = spec_raw_object_encode(m);
    lemma_concat_len(m.data, size);
    crate::wire::lemma_align16(unpadded);
    assert(m.data.len() * size >= 1) by (nonlinear_arith)
        requires
            m.data.len() >= 1,
            size >= 1,
    ;
    assert(b.len() == padded);
    lemma_u16_be_bytes_value(m.format);
    lemma_u16_be_bytes_value(m.compression);
    lemma_u16_be_bytes_value(m.entry_type);
    lemma_u16_be_bytes_value(m.entry_size);
    lemma_u64_be_bytes_value(unpadded as u64);
    assert(b.subrange(0, 2) =~= spec_u16_to_be_bytes(m.format));
    assert(b.subrange(2, 4) =~= spec_u16_to_be_bytes(m.compression));
    assert(b.subrange(4, 6) =~= spec_u16_to_be_bytes(m.entry_type));
    assert(b.subrange(6, 8) =~= spec_u16_to_be_bytes(m.entry_size));
    assert(b.subrange(8, 16) =~= spec_u64_to_be_bytes(unpadded as u64));
    assert(b.subrange(16, unpadded) =~= spec_concat(m.data));
    let payload = spec_concat(m.data);
    assert(payload.len() as int % size == 0) by (nonlinear_arith)
        requires
            payload.len() == m.data.len() * size,
            size > 0,
    ;
    assert(payload.len() as int / size == m.data.len()) by (nonlinear_arith)
        requires
            payload.len() == m.data.len() * size,
            size > 0,
    ;
    assert forall|i: int| 0 <= i < m.data.len() implies #[trigger] spec_chunks(payload, size)[i]
        == m.data[i] by {
        lemma_concat_chunk(m.data, size, i);
    }
    assert(spec_chunks(payload, size) =~~= m.data);
    let decoded = spec_raw_object_decode(b);
    assert(decoded matches Ok(d) && d == (RawObjectModel {
        length: unpadded as u64,
        ..m
    }));
}

/// Decoding a raw object is local: two 16-aligned buffers that agree on
/// the sub-header and on the declared payload decode alike, whatever
/// follows the payload.
pub proof fn lemma_raw_object_decode_local(b1: Seq<u8>, b2: Seq<u8>)
    requires
        b1.len() % 16 == 0,
        b2.len() % 16 == 0,
        b1.len() >= 16,
        b2.len() >= 16,
        b1.subrange(0, 16) == b2.subrange(0, 16),
        ({
            let len_field = spec_u64_from_be_bytes(b1.subrange(8, 16));
            16 < len_field ==> len_field <= b1.len() && len_field <= b2.len() && b1.subrange(
                16,
                len_field as int,
            ) == b2.subrange(16, len_field as int)
        }),
    ensures
        spec_raw_object_decode(b1) == spec_raw_object_decode(b2),
{
    assert(b1.subrange(0, 2) =~= b1.subrange(0, 16).subrange(0, 2));
    assert(b2.subrange(0, 2) =~= b2.subrange(0, 16).subrange(0, 2));
    assert(b1.subrange(2, 4) =~= b1.subrange(0, 16).subrange(2, 4));
    assert(b2.subrange(2, 4) =~= b2.subrange(0, 16).subrange(2, 4));
    assert(b1.subrange(4, 6) =~= b1.subrange(0, 16).subrange(4, 6));
    assert(b2.subrange(4, 6) =~= b2.subrange(0, 16).subrange(4, 6));
    assert(b1.subrange(6, 8) =~= b1.subrange(0, 16).subrange(6, 8));
    assert(b2.subrange(6, 8) =~= b2.subrange(0, 16).subrange(6, 8));
    assert(b1.subrange(8, 16) =~= b1.subrange(0, 16).subrange(8, 16));
    assert(b2.subrange(8, 16) =~= b2.subrange(0, 16).subrange(8, 16));
    let len_field = spec_u64_from_be_bytes(b1.subrange(8, 16));
    if len_field <= 16 {
    } else {
        assert(spec_raw_object_decode(b1) == spec_raw_object_decode(b2));
    }
}

} // verus!

//! Codec for the object map: the fixed-size index that translates object
//! ids to absolute byte offsets in the database file.
//!
//! The map is a sequence of 16-byte records, each holding an id and an
//! offset as big-endian `u64` values, placed immediately after the header.
//! Every offset must sit on a 16-byte boundary.

use crate::wire::{
    lemma_u64_be_bytes_value, push_u64_be, spec_u64_from_be_bytes, spec_u64_to_be_bytes,
    u64_from_be_at,
};
use vstd::prelude::*;

verus! {

/// The ways decoding an object map can fail.
#[derive(Debug, Clone, Copy, PartialEq, Eq, Structural)]
pub enum ObjectMappingError {
    /// The buffer is shorter than the requested number of records.
    InvalidLength,
    /// A record's offset is not a multiple of 16.
    InvalidPadding,
}

/// One record of the object map: an object id and the absolute byte
/// offset of its raw object.
#[derive(Debug, Clone, Copy, PartialEq, Eq, Structural)]
pub struct ObjectMapping {
    pub id: u64,
    pub offset: u64,
}

impl ObjectMapping {
    pub fn new(id: u64, offset: u64) -> (r: Self)
        ensures
            r == (ObjectMapping { id, offset }),
    {
        Self { id, offset }
    }

    /// Decode one 16-byte record.
    pub fn decode(value: &[u8]) -> (r: Result<Self, ObjectMappingError>)
        ensures
            r == spec_mapping_decode(value@),
    {
        if value.len() != 16 {
            return Err(ObjectMappingError::InvalidLength);
        }
        let id = u64_from_be_at(value, 0);
        let offset = u64_from_be_at(value, 8);
        if offset % 16 != 0 {
            return Err(ObjectMappingError::InvalidPadding);
        }
        Ok(Self { id, offset })
    }
}

/// The 16 encoded bytes of one record.
pub open spec fn spec_mapping_encode(m: ObjectMapping) -> Seq<u8> {
    spec_u64_to_be_bytes(m.id) + spec_u64_to_be_bytes(m.offset)
}

/// What decoding one 16-byte record yields.
pub open spec fn spec_mapping_decode(b: Seq<u8>) -> Result<ObjectMapping, ObjectMappingError> {
    if b.len() != 16 {
        Err(ObjectMappingError::InvalidLength)
    } else {
        let id = spec_u64_from_be_bytes(b.subrange(0, 8));
        let offset = spec_u64_from_be_bytes(b.subrange(8, 16));
        if offset % 16 != 0 {
            Err(ObjectMappingError::InvalidPadding)
        } else {
            Ok(ObjectMapping { id, offset })
        }
    }
}

/// The encoded bytes of a whole map: the records concatenated in
/// sequence order.
pub open spec fn spec_map_encode(ms: Seq<ObjectMapping>) -> Seq<u8>
    decreases ms.len(),
{
    if ms.len() == 0 {
        Seq::empty()
    } else {
        spec_map_encode(ms.drop_last()) + spec_mapping_encode(ms.last())
    }
}

/// What decoding `count` records from a buffer yields. A buffer shorter
/// than `count * 16` bytes fails with `InvalidLength`; a record whose
/// offset is not 16-aligned fails with `InvalidPadding`.
pub open spec fn spec_map_decode(b: Seq<u8>, count: nat) -> Result<
    Seq<ObjectMapping>,
    ObjectMappingError,
> {
    if b.len() < count * 16 {
        Err(ObjectMappingError::InvalidLength)
    } else if exists|i: int|
        0 <= i < count && #[trigger] spec_mapping_decode(b.subrange(16 * i, 16 * i + 16)) is Err {
        Err(ObjectMappingError::InvalidPadding)
    } else {
        Ok(
            Seq::new(
                count,
                |i: int| spec_mapping_decode(b.subrange(16 * i, 16 * i + 16)).unwrap(),
            ),
        )
    }
}

/// The object map: an ordered sequence of id-to-offset records.
#[derive(Debug)]
pub struct ObjectMap {
    pub mappings: Vec<ObjectMapping>,
}

impl View for ObjectMap {
    type V = Seq<ObjectMapping>;

    open spec fn view(&self) -> Seq<ObjectMapping> {
        self.mappings@
    }
}

impl ObjectMap {
    /// A fresh, empty map.
    pub fn new() -> (r: Self)
        ensures
            r@ == Seq::<ObjectMapping>::empty(),
    {
        Self { mappings: Vec::new() }
    }

    /// Decode `entry_count` consecutive records from the start of `value`.
    pub fn decode(value: &[u8], entry_count: u64) -> (r: Result<Self, ObjectMappingError>)
        ensures
            (r matches Ok(m) ==> spec_map_decode(value@, entry_count as nat) matches Ok(s) && m@
                == s),
            (r matches Err(e) ==> spec_map_decode(value@, entry_count as nat) == Err::<
                Seq<ObjectMapping>,
                ObjectMappingError,
            >(e)),
    {
        let len = value.len();
        if (len as u64) / 16 < entry_count {
            proof {
                assert(len < entry_count * 16) by (nonlinear_arith)
                    requires
                        (len as u64) / 16 < entry_count,
                        len == len as u64,
                ;
            }
            return Err(ObjectMappingError::InvalidLength);
        }
        proof {
            assert(entry_count * 16 <= len) by (nonlinear_arith)
                requires
                    (len as u64) / 16 >= entry_count,
                    len == len as u64,
            ;
        }
        let count = entry_count as usize;
        let mut entries: Vec<ObjectMapping> = Vec::new();
        let mut index: usize = 0;
        while index < count
            invariant
                index <= count,
                count == entry_count,
                count * 16 <= value@.len(),
                len == value@.len(),
                entries@.len() == index,
                forall|j: int|
                    0 <= j < index ==> #[trigger] spec_mapping_decode(
                        value@.subrange(16 * j, 16 * j + 16),
                    ) == Ok::<ObjectMapping, ObjectMappingError>(entries@[j]),
            decreases count - index,
        {
            proof {
                assert(16 * index + 16 <= 16 * count) by (nonlinear_arith)
                    requires
                        index < count,
                ;
                assert(16 * count == count * 16);
            }
            let id = u64_from_be_at(value, 16 * index);
            let offset = u64_from_be_at(value, 16 * index + 8);
            proof {
                let sub = value@.subrange(16 * index, 16 * index + 16);
                assert(sub.subrange(0, 8) =~= value@.subrange(16 * index, 16 * index + 8));
                assert(sub.subrange(8, 16) =~= value@.subrange(16 * index + 8, 16 * index + 16));
            }
            if offset % 16 != 0 {
                proof {
                    let i0 = index as int;
                    assert(spec_mapping_decode(value@.subrange(16 * i0, 16 * i0 + 16)) is Err);
                }
                return Err(ObjectMappingError::InvalidPadding);
            }
            entries.push(ObjectMapping { id, offset });
            index = index + 1;
        }
        proof {
            assert(forall|i: int|
                0 <= i < entry_count ==> !(#[trigger] spec_mapping_decode(
                    value@.subrange(16 * i, 16 * i + 16),
                ) is Err));
            assert(entries@ =~= Seq::new(
                entry_count as nat,
                |i: int| spec_mapping_decode(value@.subrange(16 * i, 16 * i + 16)).unwrap(),
            ));
        }
        Ok(Self { mappings: entries })
    }

    /// Encode the map: each record's 16 bytes, in sequence order.
    pub fn to_bytes(&self) -> (r: Vec<u8>)
        ensures
            r@ == spec_map_encode(self.mappings@),
            r@.len() == 16 * self.mappings@.len(),
    {
        proof {
            lemma_map_encode_len(self.mappings@);
        }
        let mut out: Vec<u8> = Vec::new();
        let mut i: usize = 0;
        while i < self.mappings.len()
            invariant
                i <= self.mappings@.len(),
                out@ == spec_map_encode(self.mappings@.take(i as int)),
            decreases self.mappings@.len() - i,
        {
            let m = self.mappings[i];
            push_u64_be(&mut out, m.id);
            push_u64_be(&mut out, m.offset);
            proof {
                let pre = self.mappings@.take(i as int);
                let post = self.mappings@.take(i + 1);
                assert(post.drop_last() =~= pre);
                assert(post.last() == self.mappings@[i as int]);
                assert(out@ =~= spec_map_encode(pre) + spec_mapping_encode(
                    self.mappings@[i as int],
                ));
            }
            i = i + 1;
        }
        proof {
            assert(self.mappings@.take(self.mappings@.len() as int) =~= self.mappings@);
        }
        out
    }
}

/// The encoded map of `n` records is exactly `16 * n` bytes.
pub proof fn lemma_map_encode_len(ms: Seq<ObjectMapping>)
    ensures
        spec_map_encode(ms).len() == 16 * ms.len(),
    decreases ms.len(),
{
    if ms.len() > 0 {
        lemma_map_encode_len(ms.drop_last());
    }
}

/// Record `i` of an encoded map occupies bytes `16*i .. 16*i + 16`.
pub proof fn lemma_map_encode_record(ms: Seq<ObjectMapping>, i: int)
    requires
        0 <= i < ms.len(),
    ensures
        spec_map_encode(ms).subrange(16 * i, 16 * i + 16) == spec_mapping_encode(ms[i]),
    decreases ms.len(),
{
    lemma_map_encode_len(ms);
    lemma_map_encode_len(ms.drop_last());
    if i == ms.len() - 1 {
        assert(spec_map_encode(ms).subrange(16 * i, 16 * i + 16) =~= spec_mapping_encode(
            ms.last(),
        ));
    } else {
        lemma_map_encode_record(ms.drop_last(), i);
        assert(spec_map_encode(ms).subrange(16 * i, 16 * i + 16) =~= spec_map_encode(
            ms.drop_last(),
        ).subrange(16 * i, 16 * i + 16));
    }
}

/// Object-map round trip: decoding an encoded map, with the record count
/// it was encoded from, yields the same records in the same order,
/// provided every offset sits on a 16-byte boundary as the format
/// requires.
pub proof fn lemma_map_round_trip(ms: Seq<ObjectMapping>)
    requires
        forall|i: int| 0 <= i < ms.len() ==> #[trigger] ms[i].offset % 16 == 0,
    ensures
        spec_map_decode(spec_map_encode(ms), ms.len()) == Ok::<Seq<ObjectMapping>,
        ObjectMappingError,
        >(ms),
{
    let b = spec_map_encode(ms);
    lemma_map_encode_len(ms);
    assert forall|i: int| 0 <= i < ms.len() implies spec_mapping_decode(
        #[trigger] b.subrange(16 * i, 16 * i + 16),
    ) == Ok::<ObjectMapping, ObjectMappingError>(ms[i]) by {
        lemma_map_encode_record(ms, i);
        let rec = spec_mapping_encode(ms[i]);
        lemma_u64_be_bytes_value(ms[i].id);
        lemma_u64_be_bytes_value(ms[i].offset);
        assert(rec.subrange(0, 8) =~= spec_u64_to_be_bytes(ms[i].id));
        assert(rec.subrange(8, 16) =~= spec_u64_to_be_bytes(ms[i].offset));
    }
    assert(spec_map_decode(b, ms.len()) matches Ok(s) && s =~= ms);
}

/// Decoding an object map is local: it reads only the first
/// `16 * count` bytes, so bytes appended after an exactly-sized map
/// image change nothing.
pub proof fn lemma_map_decode_prefix(mb: Seq<u8>, rest: Seq<u8>, count: nat)
    requires
        mb.len() == 16 * count,
    ensures
        spec_map_decode(mb + rest, count) == spec_map_decode(mb, count),
{
    let b = mb + rest;
    assert forall|i: int| 0 <= i < count implies #[trigger] spec_mapping_decode(
        b.subrange(16 * i, 16 * i + 16),
    ) == spec_mapping_decode(mb.subrange(16 * i, 16 * i + 16)) by {
        assert(16 * i + 16 <= 16 * count) by (nonlinear_arith)
            requires
                i < count,
        ;
        assert(b.subrange(16 * i, 16 * i + 16) =~= mb.subrange(16 * i, 16 * i + 16));
    }
    if exists|i: int|
        0 <= i < count && #[trigger] spec_mapping_decode(b.subrange(16 * i, 16 * i + 16)) is Err {
        let w = choose|i: int|
            0 <= i < count && #[trigger] spec_mapping_decode(b.subrange(16 * i, 16 * i + 16)) is Err;
        assert(spec_mapping_decode(mb.subrange(16 * w, 16 * w + 16)) is Err);
    } else if exists|i: int|
        0 <= i < count && #[trigger] spec_mapping_decode(mb.subrange(16 * i, 16 * i + 16)) is Err {
        let w = choose|i: int|
            0 <= i < count && #[trigger] spec_mapping_decode(
                mb.subrange(16 * i, 16 * i + 16),
            ) is Err;
        assert(spec_mapping_decode(b.subrange(16 * w, 16 * w + 16)) is Err);
    } else {
        assert(spec_map_decode(b, count).unwrap() =~= spec_map_decode(mb, count).unwrap());
    }
}

} // verus!

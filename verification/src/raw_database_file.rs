//! The raw database assembler: parses a whole database file image into
//! its header, object map and raw objects.
//!
//! Parsing dispatches on the header version (only version 1 is
//! supported), decodes the header, decodes the object map at offset
//! `header_len`, and then decodes one raw object at each mapped offset.
//! The parsed objects are kept as `(id, object)` pairs in map order; a
//! later pair with the same id supersedes an earlier one (last write
//! wins), which the database facade applies when it materializes them.

use crate::header::{spec_header_decode, spec_partial_version, Header, HeaderDecodeError, HeaderModel};
use crate::object::{spec_raw_object_decode, ObjectDecodeError, RawObject, RawObjectModel};
use crate::object_map::{spec_map_decode, ObjectMap, ObjectMapping, ObjectMappingError};
use vstd::prelude::*;
use vstd::slice::slice_subrange;

verus! {

/// The ways parsing a database file can fail.
#[derive(Debug)]
pub enum DatabaseParseError {
    /// The header did not decode.
    InvalidHeader(HeaderDecodeError),
    /// The object map did not decode.
    InvalidObjectMap(ObjectMappingError),
    /// A raw object did not decode.
    InvalidObject(ObjectDecodeError),
    /// A mapping's offset lies beyond the end of the file.
    InvalidObjectOffset(ObjectMapping),
    /// The header version is not supported.
    UnsupportedVersion(u32),
    /// The header's extra data does not hold what version 1 requires.
    HeaderParsingError(&'static str),
    /// The database file could not be opened.
    FileOpenFailed,
    /// Reading the database file failed.
    IOError,
}

/// A fully parsed database file image.
#[derive(Debug)]
pub struct RawDatabaseFile {
    pub header: Header,
    pub object_map: ObjectMap,
    /// The decoded objects as `(id, object)` pairs in map order. A later
    /// pair with the same id supersedes an earlier one.
    pub objects: Vec<(u64, RawObject)>,
}

/// The mathematical content of a [`RawDatabaseFile`].
pub ghost struct RawDatabaseModel {
    pub header: HeaderModel,
    pub object_map: Seq<ObjectMapping>,
    pub objects: Seq<(u64, RawObjectModel)>,
}

impl View for RawDatabaseFile {
    type V = RawDatabaseModel;

    open spec fn view(&self) -> RawDatabaseModel {
        RawDatabaseModel {
            header: self.header@,
            object_map: self.object_map@,
            objects: Seq::new(
                self.objects@.len(),
                |i: int| (self.objects@[i].0, self.objects@[i].1@),
            ),
        }
    }
}

/// What decoding the header and object map of a version-1 image yields.
pub open spec fn spec_parse_v1_headers(b: Seq<u8>) -> Result<
    (HeaderModel, Seq<ObjectMapping>),
    DatabaseParseError,
> {
    match spec_header_decode(b) {
        Err(e) => Err(DatabaseParseError::InvalidHeader(e)),
        Ok(h) => match spec_map_decode(
            b.skip(h.header_len as int),
            h.number_of_objects as nat,
        ) {
            Err(e) => Err(DatabaseParseError::InvalidObjectMap(e)),
            Ok(ms) => Ok((h, ms)),
        },
    }
}

/// What decoding one raw object per mapping yields: the `(id, object)`
/// pairs in map order, or the first failure. A mapping whose offset
/// lies at or beyond the end of the file fails with
/// `InvalidObjectOffset` carrying that mapping.
pub open spec fn spec_parse_v1_objects(b: Seq<u8>, ms: Seq<ObjectMapping>) -> Result<
    Seq<(u64, RawObjectModel)>,
    DatabaseParseError,
>
    decreases ms.len(),
{
    if ms.len() == 0 {
        Ok(Seq::empty())
    } else {
        match spec_parse_v1_objects(b, ms.drop_last()) {
            Err(e) => Err(e),
            Ok(s) => {
                let m = ms.last();
                if m.offset >= b.len() {
                    Err(DatabaseParseError::InvalidObjectOffset(m))
                } else {
                    match spec_raw_object_decode(b.skip(m.offset as int)) {
                        Err(e) => Err(DatabaseParseError::InvalidObject(e)),
                        Ok(o) => Ok(s.push((m.id, o))),
                    }
                }
            },
        }
    }
}

/// What parsing a version-1 image yields.
pub open spec fn spec_parse_v1(b: Seq<u8>) -> Result<RawDatabaseModel, DatabaseParseError> {
    match spec_parse_v1_headers(b) {
        Err(e) => Err(e),
        Ok((h, ms)) => match spec_parse_v1_objects(b, ms) {
            Err(e) => Err(e),
            Ok(objs) => Ok(RawDatabaseModel { header: h, object_map: ms, objects: objs }),
        },
    }
}

/// What parsing a database file image yields: version dispatch, then the
/// version-1 parse.
pub open spec fn spec_database_decode(b: Seq<u8>) -> Result<RawDatabaseModel, DatabaseParseError> {
    match spec_partial_version(b) {
        Err(e) => Err(DatabaseParseError::InvalidHeader(e)),
        Ok(v) => if v == 1 {
            spec_parse_v1(b)
        } else {
            Err(DatabaseParseError::UnsupportedVersion(v))
        },
    }
}

/// Once parsing the first `k` mappings fails, parsing the whole map
/// fails with the same error.
pub proof fn lemma_parse_objects_prefix_err(b: Seq<u8>, ms: Seq<ObjectMapping>, k: int)
    requires
        0 <= k <= ms.len(),
        spec_parse_v1_objects(b, ms.take(k)) is Err,
    ensures
        spec_parse_v1_objects(b, ms) == spec_parse_v1_objects(b, ms.take(k)),
    decreases ms.len(),
{
    if k == ms.len() {
        assert(ms.take(k) =~= ms);
    } else {
        assert(ms.drop_last().take(k) =~= ms.take(k));
        lemma_parse_objects_prefix_err(b, ms.drop_last(), k);
    }
}

/// Every object a successful parse yields carries a supported
/// compression code, 0 or 1: decoding rejects any other.
pub proof fn lemma_parse_objects_compression(b: Seq<u8>, ms: Seq<ObjectMapping>)
    requires
        spec_parse_v1_objects(b, ms) is Ok,
    ensures
        forall|i: int|
            0 <= i < spec_parse_v1_objects(b, ms).unwrap().len() ==> (#[trigger] spec_parse_v1_objects(
                b,
                ms,
            ).unwrap()[i]).1.compression <= 1,
    decreases ms.len(),
{
    if ms.len() > 0 {
        lemma_parse_objects_compression(b, ms.drop_last());
    }
}

impl RawDatabaseFile {
    /// Decode the header and the object map that follows it.
    pub fn parse_v1_headers(value: &[u8]) -> (r: Result<(Header, ObjectMap), DatabaseParseError>)
        ensures
            (r matches Ok(p) ==> spec_parse_v1_headers(value@) matches Ok(q) && p.0@ == q.0 && p.1@
                == q.1),
            (r matches Err(e) ==> spec_parse_v1_headers(value@) matches Err(e2) && e == e2),
    {
        let header = match Header::decode(value) {
            Ok(h) => h,
            Err(e) => {
                return Err(DatabaseParseError::InvalidHeader(e));
            },
        };
        let header_size = header.header_len as usize;
        let remaining_bytes = slice_subrange(value, header_size, value.len());
        proof {
            assert(remaining_bytes@ =~= value@.skip(header@.header_len as int));
        }
        let object_map = match ObjectMap::decode(remaining_bytes, header.number_of_objects) {
            Ok(m) => m,
            Err(e) => {
                return Err(DatabaseParseError::InvalidObjectMap(e));
            },
        };
        Ok((header, object_map))
    }

    /// Decode one raw object at each mapped offset, in map order.
    fn parse_v1_objects(data: &[u8], object_map: &ObjectMap) -> (r: Result<
        Vec<(u64, RawObject)>,
        DatabaseParseError,
    >)
        ensures
            (r matches Ok(objs) ==> spec_parse_v1_objects(data@, object_map@) matches Ok(s)
                && Seq::new(objs@.len(), |i: int| (objs@[i].0, objs@[i].1@)) == s),
            (r matches Err(e) ==> spec_parse_v1_objects(data@, object_map@) matches Err(e2) && e
                == e2),
    {
        let mut objects: Vec<(u64, RawObject)> = Vec::new();
        let count = object_map.mappings.len();
        let mut i: usize = 0;
        while i < count
            invariant
                i <= count,
                count == object_map@.len(),
                spec_parse_v1_objects(data@, object_map@.take(i as int)) matches Ok(s) && Seq::new(
                    objects@.len(),
                    |j: int| (objects@[j].0, objects@[j].1@),
                ) == s,
            decreases count - i,
        {
            let ghost pre = object_map@.take(i as int);
            let ghost post = object_map@.take(i + 1);
            proof {
                assert(post.drop_last() =~= pre);
                assert(post.last() == object_map@[i as int]);
            }
            let mapping = object_map.mappings[i];
            if mapping.offset >= data.len() as u64 {
                proof {
                    assert(spec_parse_v1_objects(data@, post) is Err);
                    lemma_parse_objects_prefix_err(data@, object_map@, i + 1);
                }
                return Err(DatabaseParseError::InvalidObjectOffset(mapping));
            }
            let object_slice = slice_subrange(data, mapping.offset as usize, data.len());
            proof {
                assert(object_slice@ =~= data@.skip(mapping.offset as int));
            }
            let object = match RawObject::decode(object_slice) {
                Ok(o) => o,
                Err(e) => {
                    proof {
                        assert(spec_parse_v1_objects(data@, post) is Err);
                        lemma_parse_objects_prefix_err(data@, object_map@, i + 1);
                    }
                    return Err(DatabaseParseError::InvalidObject(e));
                },
            };
            let ghost prev_pairs = Seq::new(
                objects@.len(),
                |j: int| (objects@[j].0, objects@[j].1@),
            );
            objects.push((mapping.id, object));
            proof {
                assert(Seq::new(objects@.len(), |j: int| (objects@[j].0, objects@[j].1@))
                    =~= prev_pairs.push((mapping.id, object@)));
            }
            i = i + 1;
        }
        proof {
            assert(object_map@.take(count as int) =~= object_map@);
        }
        Ok(objects)
    }

    /// Parse a version-1 database image: header, object map, then every
    /// mapped raw object.
    pub fn parse_v1(value: &[u8]) -> (r: Result<Self, DatabaseParseError>)
        ensures
            (r matches Ok(db) ==> spec_parse_v1(value@) matches Ok(m) && db@ == m),
            (r matches Err(e) ==> spec_parse_v1(value@) matches Err(e2) && e == e2),
    {
        let (header, object_map) = match Self::parse_v1_headers(value) {
            Ok(p) => p,
            Err(e) => {
                return Err(e);
            },
        };
        let objects = match Self::parse_v1_objects(value, &object_map) {
            Ok(o) => o,
            Err(e) => {
                return Err(e);
            },
        };
        Ok(Self { header, object_map, objects })
    }

    /// Parse a database file image, dispatching on its version; only
    /// version 1 is supported.
    pub fn decode(value: &[u8]) -> (r: Result<Self, DatabaseParseError>)
        ensures
            (r matches Ok(db) ==> spec_database_decode(value@) matches Ok(m) && db@ == m),
            (r matches Err(e) ==> spec_database_decode(value@) matches Err(e2) && e == e2),
    {
        let version = match Header::partial_version(value) {
            Ok(v) => v,
            Err(e) => {
                return Err(DatabaseParseError::InvalidHeader(e));
            },
        };
        if version == 1 {
            Self::parse_v1(value)
        } else {
            Err(DatabaseParseError::UnsupportedVersion(version))
        }
    }

    /// Decode only the header and object map of an image whose objects
    /// may be damaged, for inspection purposes.
    pub fn debug_parse_v1_headers(value: &[u8]) -> (r: Result<
        (Header, ObjectMap),
        DatabaseParseError,
    >)
        ensures
            (r matches Ok(p) ==> spec_parse_v1_headers(value@) matches Ok(q) && p.0@ == q.0 && p.1@
                == q.1),
            (r matches Err(e) ==> spec_parse_v1_headers(value@) matches Err(e2) && e == e2),
    {
        Self::parse_v1_headers(value)
    }
}

} // verus!

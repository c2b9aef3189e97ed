//! The two database access facades.
//!
//! [`Database`] is the eager facade: it materializes every object from a
//! full parse of the file image, supports insert-or-replace updates, and
//! serializes back to bytes. [`LazyDatabaseIndex`] is the verified core
//! of the lazy facade: it keeps only the header and the object map in
//! memory and resolves one object at a time from bytes that the caller
//! reads at the mapped offset.

use crate::header::Header;
use crate::object::{spec_raw_object_decode, ObjectDecodeError, RawObject, RawObjectModel};
use crate::object_map::{ObjectMap, ObjectMapping};
use crate::raw_database_file::{spec_database_decode, DatabaseParseError, RawDatabaseFile};
use crate::wire::{
    push_u64_be, spec_u64_from_be_bytes, spec_u64_to_be_bytes, u64_from_be_at,
};
use vstd::prelude::*;
use vstd::slice::slice_to_vec;

verus! {

/// Compression setting of an object.
#[derive(Debug, Clone, Copy, PartialEq, Eq, Structural)]
pub enum ObjectCompressionType {
    /// Entries are stored as they are.
    NoCompression,
    /// Entries are concatenated and compressed as one zlib stream.
    /// Supported on the decode path only.
    DEFLATE,
}

/// The on-disk code of a compression setting.
pub open spec fn spec_compression_value(c: ObjectCompressionType) -> u16 {
    match c {
        ObjectCompressionType::NoCompression => 0u16,
        ObjectCompressionType::DEFLATE => 1u16,
    }
}

/// The compression setting a supported on-disk code denotes.
pub open spec fn spec_compression_of_value(v: u16) -> ObjectCompressionType {
    if v == 1 {
        ObjectCompressionType::DEFLATE
    } else {
        ObjectCompressionType::NoCompression
    }
}

impl ObjectCompressionType {
    /// The on-disk code of this setting.
    pub fn get_value(&self) -> (r: u16)
        ensures
            r == spec_compression_value(*self),
    {
        match self {
            ObjectCompressionType::NoCompression => 0x0000,
            ObjectCompressionType::DEFLATE => 0x0001,
        }
    }

    /// The setting a supported on-disk code denotes. Codes other than 0
    /// and 1 are rejected by the codec before they reach this point.
    pub fn from_value(value: u16) -> (r: Self)
        requires
            value <= 1,
        ensures
            r == spec_compression_of_value(value),
    {
        if value == 0x0001 {
            ObjectCompressionType::DEFLATE
        } else {
            ObjectCompressionType::NoCompression
        }
    }
}

/// A generic database object: a decoded, decompressed collection of
/// fixed-size entries tagged with a format, an entry type and an entry
/// size.
#[derive(Debug, Clone)]
pub struct Object {
    /// Format code, used for dispatching to a concrete [`ObjectImpl`].
    pub format: u16,
    /// Compression setting this object was stored with.
    pub compression_type: ObjectCompressionType,
    /// What kind of entries the object holds; one format can support
    /// several entry types.
    pub entry_type: u16,
    /// Size in bytes of each entry.
    pub entry_size: u16,
    /// The entries themselves.
    pub data: Vec<Vec<u8>>,
}

/// The mathematical content of an [`Object`].
pub ghost struct ObjectModel {
    pub format: u16,
    pub compression: ObjectCompressionType,
    pub entry_type: u16,
    pub entry_size: u16,
    pub data: Seq<Seq<u8>>,
}

impl View for Object {
    type V = ObjectModel;

    open spec fn view(&self) -> ObjectModel {
        ObjectModel {
            format: self.format,
            compression: self.compression_type,
            entry_type: self.entry_type,
            entry_size: self.entry_size,
            data: self.data.deep_view(),
        }
    }
}

/// The object a decoded raw object materializes to.
pub open spec fn spec_object_of_raw(r: RawObjectModel) -> ObjectModel {
    ObjectModel {
        format: r.format,
        compression: spec_compression_of_value(r.compression),
        entry_type: r.entry_type,
        entry_size: r.entry_size,
        data: r.data,
    }
}

/// Copy a sequence of entries.
fn clone_entries(data: &Vec<Vec<u8>>) -> (r: Vec<Vec<u8>>)
    ensures
        r.deep_view() == data.deep_view(),
{
    let mut out: Vec<Vec<u8>> = Vec::new();
    let mut i: usize = 0;
    while i < data.len()
        invariant
            i <= data@.len(),
            out@.len() == i,
            forall|j: int| 0 <= j < i ==> #[trigger] out.deep_view()[j] == data.deep_view()[j],
        decreases data@.len() - i,
    {
        let ghost prev_dv = out.deep_view();
        out.push(slice_to_vec(data[i].as_slice()));
        proof {
            assert(forall|j: int| 0 <= j < i ==> #[trigger] out.deep_view()[j] == prev_dv[j]);
        }
        i = i + 1;
    }
    proof {
        assert(out.deep_view() =~~= data.deep_view());
    }
    out
}

impl Object {
    /// Materialize an object from a decoded raw object, copying the
    /// entries.
    pub fn from_raw(value: &RawObject) -> (r: Object)
        requires
            value.compression <= 1,
        ensures
            r@ == spec_object_of_raw(value@),
    {
        Object {
            format: value.format,
            compression_type: ObjectCompressionType::from_value(value.compression),
            entry_type: value.entry_type,
            entry_size: value.entry_size,
            data: clone_entries(&value.data),
        }
    }
}

/// The conversion contract every concrete object format implements
/// against the generic [`Object`].
pub trait ObjectImpl: Sized {
    /// Stable human-readable name of the format.
    fn name() -> &'static str;

    /// Lower the concrete instance to a generic object for storage.
    fn to_object(self) -> Object;

    /// Recover a concrete instance from a generic object; yields nothing
    /// when the object is not in this format.
    fn from_object(obj: Object) -> Option<Self>;
}

/// The human-readable label of an on-disk compression code.
pub open spec fn spec_compression_text(compression: u16) -> Seq<char> {
    if compression == 0 {
        "no compression"@
    } else if compression == 1 {
        "DEFLATE (flate2)"@
    } else {
        "invalid/unknown"@
    }
}

/// A human-readable label for an on-disk compression code, for
/// reporting purposes.
pub fn get_compression_text(compression: u16) -> (r: &'static str)
    ensures
        r@ == spec_compression_text(compression),
{
    match compression {
        0x0000 => "no compression",
        0x0001 => "DEFLATE (flate2)",
        _ => "invalid/unknown",
    }
}

/// The stable name of the format a concrete object value belongs to,
/// for reporting purposes.
pub fn get_object_name<T: ObjectImpl>(_value: T) -> &'static str {
    T::name()
}

/// Whether some pair in `s` carries the key `id`.
pub open spec fn spec_assoc_contains<V>(s: Seq<(u64, V)>, id: u64) -> bool {
    exists|i: int| 0 <= i < s.len() && (#[trigger] s[i]).0 == id
}

/// The index of the pair carrying `id`; meaningful when the keys are
/// unique and `id` is present.
pub open spec fn spec_assoc_index<V>(s: Seq<(u64, V)>, id: u64) -> int {
    choose|i: int| 0 <= i < s.len() && (#[trigger] s[i]).0 == id
}

/// The mapping an association sequence denotes; a later pair with the
/// same key supersedes an earlier one.
pub open spec fn spec_assoc_map<V>(s: Seq<(u64, V)>) -> Map<u64, V>
    decreases s.len(),
{
    if s.len() == 0 {
        Map::empty()
    } else {
        spec_assoc_map(s.drop_last()).insert(s.last().0, s.last().1)
    }
}

/// Whether the keys of `s` are pairwise distinct.
pub open spec fn spec_unique_ids<V>(s: Seq<(u64, V)>) -> bool {
    forall|i: int, j: int|
        0 <= i < j < s.len() ==> (#[trigger] s[i]).0 != (#[trigger] s[j]).0
}

/// Insert-or-replace on an association sequence: a present key keeps its
/// position with the new value, an absent key is appended.
pub open spec fn spec_assoc_insert<V>(s: Seq<(u64, V)>, id: u64, v: V) -> Seq<(u64, V)> {
    if spec_assoc_contains(s, id) {
        s.update(spec_assoc_index(s, id), (id, v))
    } else {
        s.push((id, v))
    }
}

/// The mapping denoted by an association sequence carries a key exactly
/// when the key occurs in the sequence.
pub proof fn lemma_assoc_map_dom<V>(s: Seq<(u64, V)>, id: u64)
    ensures
        spec_assoc_map(s).contains_key(id) <==> spec_assoc_contains(s, id),
    decreases s.len(),
{
    if s.len() > 0 {
        lemma_assoc_map_dom(s.drop_last(), id);
        if spec_assoc_contains(s, id) {
            let i = choose|i: int| 0 <= i < s.len() && (#[trigger] s[i]).0 == id;
            if i < s.len() - 1 {
                assert(s.drop_last()[i].0 == id);
                assert(spec_assoc_contains(s.drop_last(), id));
            }
        }
        if spec_assoc_map(s).contains_key(id) {
            if id != s.last().0 {
                let i = choose|i: int|
                    0 <= i < s.drop_last().len() && (#[trigger] s.drop_last()[i]).0 == id;
                assert(s[i].0 == id);
            } else {
                assert(s[s.len() - 1].0 == id);
            }
        }
    }
}

/// With pairwise distinct keys, the mapping sends each key of the
/// sequence to the value paired with it.
pub proof fn lemma_assoc_map_index<V>(s: Seq<(u64, V)>, i: int)
    requires
        spec_unique_ids(s),
        0 <= i < s.len(),
    ensures
        spec_assoc_map(s).contains_key(s[i].0),
        spec_assoc_map(s)[s[i].0] == s[i].1,
    decreases s.len(),
{
    lemma_assoc_map_dom(s, s[i].0);
    if i == s.len() - 1 {
    } else {
        lemma_assoc_map_index(s.drop_last(), i);
        assert(s.drop_last()[i] == s[i]);
        assert(s[i].0 != s.last().0);
    }
}

/// The errors of the lazy facade.
#[derive(Debug)]
pub enum LazyParsingError {
    /// Reading from the backing file failed.
    IOError,
    /// No mapping carries the requested id.
    NotFound,
    /// The object's bytes did not decode.
    InvalidObject(ObjectDecodeError),
}

/// The first mapping in `ms` that carries `id`, if any.
pub open spec fn spec_find_mapping(ms: Seq<ObjectMapping>, id: u64) -> Option<ObjectMapping>
    decreases ms.len(),
{
    if ms.len() == 0 {
        None
    } else if ms[0].id == id {
        Some(ms[0])
    } else {
        spec_find_mapping(ms.skip(1), id)
    }
}

/// A found mapping carries the requested id, an aligned offset, and
/// there is one exactly when some mapping carries the id.
pub proof fn lemma_find_mapping(ms: Seq<ObjectMapping>, id: u64)
    ensures
        spec_find_mapping(ms, id) is Some <==> exists|i: int|
            0 <= i < ms.len() && (#[trigger] ms[i]).id == id,
        (spec_find_mapping(ms, id) matches Some(m) ==> m.id == id && exists|i: int|
            0 <= i < ms.len() && #[trigger] ms[i] == m),
    decreases ms.len(),
{
    if ms.len() > 0 {
        lemma_find_mapping(ms.skip(1), id);
        if ms[0].id != id {
            assert forall|i: int|
                0 <= i < ms.len() && (#[trigger] ms[i]).id == id implies spec_find_mapping(
                ms,
                id,
            ) is Some by {
                if i > 0 {
                    assert(ms.skip(1)[i - 1].id == id);
                }
            }
            if spec_find_mapping(ms, id) is Some {
                let m = spec_find_mapping(ms.skip(1), id).unwrap();
                let i = choose|i: int| 0 <= i < ms.skip(1).len() && #[trigger] ms.skip(1)[i] == m;
                assert(ms[i + 1] == m);
            }
        }
    }
}

/// What materializing one object from its raw bytes yields.
pub open spec fn spec_lazy_parse_object(b: Seq<u8>) -> Result<ObjectModel, LazyParsingError> {
    match spec_raw_object_decode(b) {
        Ok(m) => Ok(spec_object_of_raw(m)),
        Err(e) => Err(LazyParsingError::InvalidObject(e)),
    }
}

/// What parsing the lazy index from the header region's bytes and the
/// map region's bytes yields.
pub open spec fn spec_lazy_index_parse(hb: Seq<u8>, mb: Seq<u8>) -> Result<
    (crate::header::HeaderModel, Seq<ObjectMapping>),
    DatabaseParseError,
> {
    match crate::header::spec_header_decode(hb) {
        Err(e) => Err(DatabaseParseError::InvalidHeader(e)),
        Ok(h) => match crate::object_map::spec_map_decode(mb, h.number_of_objects as nat) {
            Err(e) => Err(DatabaseParseError::InvalidObjectMap(e)),
            Ok(ms) => Ok((h, ms)),
        },
    }
}

/// The verified core of the lazy facade: the parsed header and object
/// map of an open database file. No object payload is retained; the
/// caller reads each object's bytes at the mapped offset on demand.
#[derive(Debug)]
pub struct LazyDatabaseIndex {
    pub header: Header,
    pub mapping: ObjectMap,
}

impl LazyDatabaseIndex {
    /// Parse the header from the bytes of the header region and the
    /// object map from the bytes that follow it.
    pub fn parse(header_bytes: &[u8], map_bytes: &[u8]) -> (r: Result<Self, DatabaseParseError>)
        ensures
            (r matches Ok(ix) ==> spec_lazy_index_parse(header_bytes@, map_bytes@) matches Ok(p)
                && ix.header@ == p.0 && ix.mapping@ == p.1),
            (r matches Err(e) ==> spec_lazy_index_parse(header_bytes@, map_bytes@) matches Err(e2)
                && e == e2),
    {
        let header = match Header::decode(header_bytes) {
            Ok(h) => h,
            Err(e) => {
                return Err(DatabaseParseError::InvalidHeader(e));
            },
        };
        let mapping = match ObjectMap::decode(map_bytes, header.number_of_objects) {
            Ok(m) => m,
            Err(e) => {
                return Err(DatabaseParseError::InvalidObjectMap(e));
            },
        };
        Ok(Self { header, mapping })
    }

    /// Whether the map carries the given id: a linear scan, one probe
    /// per mapping.
    pub fn has_object(&self, id: u64) -> (r: bool)
        ensures
            r == (spec_find_mapping(self.mapping@, id) is Some),
    {
        proof {
            lemma_find_mapping(self.mapping@, id);
        }
        let mut i: usize = 0;
        while i < self.mapping.mappings.len()
            invariant
                i <= self.mapping@.len(),
                forall|j: int| 0 <= j < i ==> (#[trigger] self.mapping@[j]).id != id,
            decreases self.mapping@.len() - i,
        {
            if self.mapping.mappings[i].id == id {
                proof {
                    lemma_find_mapping(self.mapping@, id);
                }
                return true;
            }
            i = i + 1;
        }
        proof {
            lemma_find_mapping(self.mapping@, id);
        }
        false
    }

    /// The first mapping that carries the given id, if any.
    pub fn find_mapping(&self, id: u64) -> (r: Option<ObjectMapping>)
        ensures
            r == spec_find_mapping(self.mapping@, id),
    {
        proof {
            assert(self.mapping@.skip(0) =~= self.mapping@);
        }
        let mut i: usize = 0;
        while i < self.mapping.mappings.len()
            invariant
                i <= self.mapping@.len(),
                spec_find_mapping(self.mapping@, id) == spec_find_mapping(
                    self.mapping@.skip(i as int),
                    id,
                ),
            decreases self.mapping@.len() - i,
        {
            let m = self.mapping.mappings[i];
            proof {
                assert(self.mapping@.skip(i as int)[0] == self.mapping@[i as int]);
                assert(self.mapping@.skip(i as int).skip(1) =~= self.mapping@.skip(i + 1));
            }
            if m.id == id {
                return Some(m);
            }
            i = i + 1;
        }
        proof {
            assert(self.mapping@.skip(self.mapping@.len() as int).len() == 0);
        }
        None
    }

    /// The unpadded length a raw-object sub-header declares. The caller
    /// reads this many bytes, rounded up to the 16-byte footprint, at
    /// the object's offset.
    pub fn declared_object_length(subheader: &[u8]) -> (r: Option<u64>)
        ensures
            subheader@.len() >= 16 ==> r == Some(
                spec_u64_from_be_bytes(subheader@.subrange(8, 16)),
            ),
            subheader@.len() < 16 ==> r is None,
    {
        if subheader.len() < 16 {
            return None;
        }
        Some(u64_from_be_at(subheader, 8))
    }

    /// Materialize one object from the bytes of its on-disk footprint.
    pub fn parse_object(bytes: &[u8]) -> (r: Result<Object, LazyParsingError>)
        ensures
            (r matches Ok(o) ==> spec_lazy_parse_object(bytes@) matches Ok(m) && o@ == m),
            (r matches Err(e) ==> spec_lazy_parse_object(bytes@) matches Err(e2) && e == e2),
    {
        match RawObject::decode(bytes) {
            Ok(raw) => Ok(Object::from_raw(&raw)),
            Err(e) => Err(LazyParsingError::InvalidObject(e)),
        }
    }
}

/// The mathematical content of a [`Database`].
pub ghost struct DatabaseModel {
    /// The objects as `(id, object)` pairs in layout order, with
    /// pairwise distinct ids.
    pub objects: Seq<(u64, ObjectModel)>,
    /// The last-modified timestamp read at parse time. Serialization
    /// stamps the current time instead.
    pub last_updated: u64,
    /// The caller-defined database version.
    pub database_version: u64,
}

/// The eager facade: every object is materialized in memory, keyed by
/// id with a last-write-wins insert.
#[derive(Debug)]
pub struct Database {
    objects: Vec<(u64, Object)>,
    last_updated: u64,
    database_version: u64,
}

impl View for Database {
    type V = DatabaseModel;

    closed spec fn view(&self) -> DatabaseModel {
        DatabaseModel {
            objects: Seq::new(self.objects@.len(), |i: int| (self.objects@[i].0, self.objects@[i].1@)),
            last_updated: self.last_updated,
            database_version: self.database_version,
        }
    }
}

impl Database {
    /// The ids in the object sequence are pairwise distinct.
    pub open spec fn wf(&self) -> bool {
        spec_unique_ids(self@.objects)
    }

    /// The mapping from ids to objects this database holds.
    pub open spec fn spec_objects(&self) -> Map<u64, ObjectModel> {
        spec_assoc_map(self@.objects)
    }

    /// A new, empty database carrying the given version-1 database
    /// version number.
    pub fn new(database_version: u64) -> (r: Self)
        ensures
            r@ == (DatabaseModel {
                objects: Seq::<(u64, ObjectModel)>::empty(),
                last_updated: 0u64,
                database_version,
            }),
            r.wf(),
    {
        let r = Database { objects: Vec::new(), last_updated: 0, database_version };
        proof {
            assert(r@.objects =~= Seq::<(u64, ObjectModel)>::empty());
        }
        r
    }

    /// Insert an object under an id, replacing any object already stored
    /// under it: a documented last-write-wins policy, not a merge.
    pub fn add_object(&mut self, id: u64, obj: Object)
        requires
            old(self).wf(),
        ensures
            final(self).wf(),
            final(self)@.objects == spec_assoc_insert(old(self)@.objects, id, obj@),
            final(self).spec_objects() == old(self).spec_objects().insert(id, obj@),
            final(self)@.last_updated == old(self)@.last_updated,
            final(self)@.database_version == old(self)@.database_version,
    {
        proof {
            lemma_assoc_map_dom(self@.objects, id);
        }
        let ghost old_pairs = self@.objects;
        let mut i: usize = 0;
        while i < self.objects.len()
            invariant
                i <= self.objects@.len(),
                forall|j: int| 0 <= j < i ==> (#[trigger] self@.objects[j]).0 != id,
                self@ == old(self)@,
                old_pairs == old(self)@.objects,
                spec_unique_ids(old_pairs),
            decreases self.objects@.len() - i,
        {
            if self.objects[i].0 == id {
                self.objects[i] = (id, obj);
                proof {
                    let ii = i as int;
                    assert(old_pairs[ii].0 == id);
                    assert(spec_assoc_contains(old_pairs, id));
                    let k = spec_assoc_index(old_pairs, id);
                    assert(0 <= k < old_pairs.len() && old_pairs[k].0 == id);
                    assert(k == ii) by {
                        if k != ii {
                            assert(old_pairs[k].0 != old_pairs[ii].0);
                        }
                    }
                    assert(self@.objects =~= spec_assoc_insert(old_pairs, id, obj@));
                    lemma_insert_keeps_unique_and_map(old_pairs, id, obj@);
                    lemma_assoc_map_dom(old_pairs, id);
                }
                return ;
            }
            i = i + 1;
        }
        self.objects.push((id, obj));
        proof {
            assert(!spec_assoc_contains(old_pairs, id));
            assert(self@.objects =~= spec_assoc_insert(old_pairs, id, obj@));
            lemma_insert_keeps_unique_and_map(old_pairs, id, obj@);
            lemma_assoc_map_dom(old_pairs, id);
        }
    }

    /// A mutable reference to the object stored under an id, or nothing
    /// when the id is absent. The caller's writes through the reference
    /// replace that object's content in place.
    pub fn get_object_mut(&mut self, id: u64) -> (r: Option<&mut Object>)
        requires
            old(self).wf(),
        ensures
            r is Some <==> spec_assoc_map(old(self)@.objects).contains_key(id),
            (r matches Some(o) ==> o@ == spec_assoc_map(old(self)@.objects)[id]
                && final(self)@.objects == spec_assoc_insert(old(self)@.objects, id, ((*final(
                o))@))
                && final(self)@.last_updated == old(self)@.last_updated
                && final(self)@.database_version == old(self)@.database_version),
            (r is None ==> final(self)@ == old(self)@),
    {
        proof {
            lemma_assoc_map_dom(self@.objects, id);
        }
        let ghost old_pairs = self@.objects;
        let count = self.objects.len();
        let mut i: usize = 0;
        while i < count
            invariant
                i <= count,
                count == self.objects@.len(),
                forall|j: int| 0 <= j < i ==> (#[trigger] self@.objects[j]).0 != id,
                self@ == old(self)@,
                old_pairs == old(self)@.objects,
                spec_unique_ids(old_pairs),
            decreases count - i,
        {
            if self.objects[i].0 == id {
                proof {
                    lemma_assoc_map_index(old_pairs, i as int);
                    lemma_assoc_map_dom(old_pairs, id);
                    let k = spec_assoc_index(old_pairs, id);
                    assert(0 <= k < old_pairs.len() && old_pairs[k].0 == id);
                    assert(k == i as int) by {
                        if k != i as int {
                            assert(old_pairs[k].0 != old_pairs[i as int].0);
                        }
                    }
                }
                let entry = &mut self.objects[i].1;
                return Some(entry);
            }
            i = i + 1;
        }
        proof {
            assert(!spec_assoc_contains(old_pairs, id));
        }
        None
    }

    /// The object stored under an id, or nothing when the id is absent.
    pub fn get_object(&self, id: u64) -> (r: Option<&Object>)
        requires
            self.wf(),
        ensures
            r is Some <==> self.spec_objects().contains_key(id),
            (r matches Some(o) ==> self.spec_objects()[id] == o@),
    {
        proof {
            lemma_assoc_map_dom(self@.objects, id);
        }
        let mut i: usize = 0;
        while i < self.objects.len()
            invariant
                i <= self.objects@.len(),
                forall|j: int| 0 <= j < i ==> (#[trigger] self@.objects[j]).0 != id,
                self.wf(),
            decreases self.objects@.len() - i,
        {
            if self.objects[i].0 == id {
                proof {
                    lemma_assoc_map_index(self@.objects, i as int);
                    lemma_assoc_map_dom(self@.objects, id);
                }
                return Some(&self.objects[i].1);
            }
            i = i + 1;
        }
        proof {
            assert(!spec_assoc_contains(self@.objects, id));
        }
        None
    }
}

/// Insert-or-replace keeps the ids pairwise distinct and acts on the
/// denoted mapping as a plain insert.
pub proof fn lemma_insert_keeps_unique_and_map<V>(s: Seq<(u64, V)>, id: u64, v: V)
    requires
        spec_unique_ids(s),
    ensures
        spec_unique_ids(spec_assoc_insert(s, id, v)),
        spec_assoc_map(spec_assoc_insert(s, id, v)) == spec_assoc_map(s).insert(id, v),
    decreases s.len(),
{
    lemma_assoc_map_dom(s, id);
    if spec_assoc_contains(s, id) {
        let k = spec_assoc_index(s, id);
        assert(0 <= k < s.len() && s[k].0 == id);
        let t = s.update(k, (id, v));
        assert(spec_unique_ids(t)) by {
            assert(forall|i: int|
                0 <= i < t.len() ==> (#[trigger] t[i]).0 == if i == k {
                    id
                } else {
                    s[i].0
                });
        }
        if k == s.len() - 1 {
            assert(t.drop_last() =~= s.drop_last());
            assert(spec_assoc_map(t) =~= spec_assoc_map(s).insert(id, v)) by {
                assert(s.last().0 == id);
            }
        } else {
            assert(s.drop_last()[k].0 == id);
            assert(spec_assoc_contains(s.drop_last(), id));
            lemma_assoc_map_dom(s.drop_last(), id);
            assert(spec_assoc_index(s.drop_last(), id) == k) by {
                let k2 = spec_assoc_index(s.drop_last(), id);
                assert(0 <= k2 < s.len() - 1 && s.drop_last()[k2].0 == id);
                if k2 != k {
                    assert(s[k2].0 != s[k].0);
                }
            }
            lemma_insert_keeps_unique_and_map(s.drop_last(), id, v);
            assert(t.drop_last() =~= spec_assoc_insert(s.drop_last(), id, v));
            assert(t.last() == s.last());
            assert(s.last().0 != id);
            assert(spec_assoc_map(t) == spec_assoc_map(s.drop_last()).insert(id, v).insert(
                s.last().0,
                s.last().1,
            ));
            assert(spec_assoc_map(t) =~= spec_assoc_map(s).insert(id, v));
        }
    } else {
        let t = s.push((id, v));
        assert(forall|j: int| 0 <= j < s.len() ==> (#[trigger] s[j]).0 != id);
        assert(spec_unique_ids(t)) by {
            assert(forall|i: int| 0 <= i < s.len() ==> #[trigger] t[i] == s[i]);
            assert(t[s.len() as int].0 == id);
        }
        assert(t.drop_last() =~= s);
        assert(t.last() == (id, v));
    }
}

/// The 16 bytes of version-1 extra data written at serialization time:
/// the timestamp, then the database version, both big-endian.
pub open spec fn spec_v1_extra(timestamp: u64, db_version: u64) -> Seq<u8> {
    spec_u64_to_be_bytes(timestamp) + spec_u64_to_be_bytes(db_version)
}

/// The raw object an object is lowered to for encoding. The stored
/// length is a placeholder: encoding computes the real value.
pub open spec fn spec_raw_of_object(m: ObjectModel) -> RawObjectModel {
    RawObjectModel {
        format: m.format,
        compression: spec_compression_value(m.compression),
        entry_type: m.entry_type,
        entry_size: m.entry_size,
        length: 0u64,
        data: m.data,
    }
}

/// The padded on-disk footprint of one object.
pub open spec fn spec_object_padded_len(m: ObjectModel) -> int {
    crate::wire::spec_align16(16 + m.data.len() * (m.entry_size as int))
}

/// The total footprint of the first `k` objects' encoded bodies.
pub open spec fn spec_bodies_len(objs: Seq<(u64, ObjectModel)>, k: int) -> int
    decreases k,
{
    if k <= 0 {
        0
    } else {
        spec_bodies_len(objs, k - 1) + spec_object_padded_len(objs[k - 1].1)
    }
}

/// The concatenated encoded bodies of a sequence of objects.
pub open spec fn spec_db_bodies(objs: Seq<(u64, ObjectModel)>) -> Seq<u8>
    decreases objs.len(),
{
    if objs.len() == 0 {
        Seq::empty()
    } else {
        spec_db_bodies(objs.drop_last()) + crate::object::spec_raw_object_encode(
            spec_raw_of_object(objs.last().1),
        )
    }
}

/// The object map a serialized database carries: each object's id with
/// its absolute offset, `base` being the end of the map region.
pub open spec fn spec_db_mappings(objs: Seq<(u64, ObjectModel)>, base: int) -> Seq<ObjectMapping> {
    Seq::new(
        objs.len(),
        |i: int| ObjectMapping { id: objs[i].0, offset: (base + spec_bodies_len(objs, i)) as u64 },
    )
}

/// One object can be encoded: it is uncompressed, every entry holds
/// exactly `entry_size` bytes, there is at least one entry, the entry
/// size is positive, and its footprint fits the machine.
pub open spec fn spec_object_encodable(m: ObjectModel) -> bool {
    &&& m.compression == ObjectCompressionType::NoCompression
    &&& m.entry_size > 0
    &&& m.data.len() >= 1
    &&& forall|j: int| 0 <= j < m.data.len() ==> (#[trigger] m.data[j]).len() == m.entry_size
    &&& 16 + m.data.len() * (m.entry_size as int) + 15 <= usize::MAX
}

/// A database's objects can be serialized: each object is encodable and
/// the whole image fits the machine.
pub open spec fn spec_db_encodable(objs: Seq<(u64, ObjectModel)>) -> bool {
    &&& forall|i: int| 0 <= i < objs.len() ==> spec_object_encodable((#[trigger] objs[i]).1)
    &&& crate::header::spec_header_len_of(16) + 16 * objs.len() + spec_bodies_len(
        objs,
        objs.len() as int,
    ) <= usize::MAX
}

/// The serialized image of a database: a version-1 header carrying the
/// timestamp and database version as extra data, the object map, and
/// the concatenated padded object bodies.
pub open spec fn spec_database_encode(
    objs: Seq<(u64, ObjectModel)>,
    db_version: u64,
    timestamp: u64,
) -> Seq<u8> {
    let extra = spec_v1_extra(timestamp, db_version);
    let base = crate::header::spec_header_len_of(16) + 16 * objs.len();
    crate::header::spec_header_encode(1, objs.len() as u64, extra) + crate::object_map::spec_map_encode(
        spec_db_mappings(objs, base),
    ) + spec_db_bodies(objs)
}

/// Footprints are at least 32 bytes each, so body lengths grow
/// monotonically with the object count.
pub proof fn lemma_bodies_len_bounds(objs: Seq<(u64, ObjectModel)>, k: int)
    requires
        0 <= k <= objs.len(),
        forall|i: int| 0 <= i < objs.len() ==> spec_object_encodable((#[trigger] objs[i]).1),
    ensures
        0 <= spec_bodies_len(objs, k) <= spec_bodies_len(objs, objs.len() as int),
        spec_bodies_len(objs, k) % 16 == 0,
    decreases objs.len() - k,
{
    lemma_bodies_len_nonneg_below(objs, k);
    if k < objs.len() {
        let m = objs[k].1;
        assert(m.data.len() * (m.entry_size as int) >= 0) by (nonlinear_arith)
            requires
                m.data.len() >= 0,
                m.entry_size >= 0,
        ;
        crate::wire::lemma_align16(16 + m.data.len() * (m.entry_size as int));
        lemma_bodies_len_bounds(objs, k + 1);
    }
}

/// Body lengths of encodable objects are nonnegative multiples of 16.
proof fn lemma_bodies_len_nonneg_below(objs: Seq<(u64, ObjectModel)>, k: int)
    requires
        0 <= k <= objs.len(),
        forall|i: int| 0 <= i < objs.len() ==> spec_object_encodable((#[trigger] objs[i]).1),
    ensures
        spec_bodies_len(objs, k) >= 0,
        spec_bodies_len(objs, k) % 16 == 0,
    decreases k,
{
    if k > 0 {
        lemma_bodies_len_nonneg_below(objs, k - 1);
        let m = objs[k - 1].1;
        assert(m.data.len() * (m.entry_size as int) >= 0) by (nonlinear_arith)
            requires
                m.data.len() >= 0,
                m.entry_size >= 0,
        ;
        crate::wire::lemma_align16(16 + m.data.len() * (m.entry_size as int));
    }
}

/// Body lengths are sums of nonnegative footprints.
pub proof fn lemma_bodies_len_nonneg(objs: Seq<(u64, ObjectModel)>, k: int)
    requires
        0 <= k <= objs.len(),
    ensures
        spec_bodies_len(objs, k) >= 0,
    decreases k,
{
    if k > 0 {
        lemma_bodies_len_nonneg(objs, k - 1);
        let m = objs[k - 1].1;
        assert(m.data.len() * (m.entry_size as int) >= 0) by (nonlinear_arith)
            requires
                m.data.len() >= 0,
                m.entry_size >= 0,
        ;
        crate::wire::lemma_align16(16 + m.data.len() * (m.entry_size as int));
    }
}

/// Body lengths grow with the object count.
pub proof fn lemma_bodies_len_mono_tail(objs: Seq<(u64, ObjectModel)>, k: int, n: int)
    requires
        0 <= k <= n <= objs.len(),
    ensures
        spec_bodies_len(objs, k) <= spec_bodies_len(objs, n),
    decreases n - k,
{
    if k < n {
        let m = objs[n - 1].1;
        assert(m.data.len() * (m.entry_size as int) >= 0) by (nonlinear_arith)
            requires
                m.data.len() >= 0,
                m.entry_size >= 0,
        ;
        crate::wire::lemma_align16(16 + m.data.len() * (m.entry_size as int));
        lemma_bodies_len_mono_tail(objs, k, n - 1);
    }
}

/// Relies on std::time::SystemTime: the current wall-clock time as
/// seconds since the Unix epoch. A clock before the epoch reports 0.
#[verifier::external_body]
fn current_unix_seconds() -> u64 {
    std::time::SystemTime::now()
        .duration_since(std::time::UNIX_EPOCH)
        .map(|d| d.as_secs())
        .unwrap_or(0)
}

/// The objects of a sequence of parsed raw pairs, materialized.
pub open spec fn spec_objects_of_raw_pairs(pairs: Seq<(u64, RawObjectModel)>) -> Seq<
    (u64, ObjectModel),
> {
    Seq::new(pairs.len(), |i: int| (pairs[i].0, spec_object_of_raw(pairs[i].1)))
}

/// Insert-or-replace each pair of `pairs` into `acc`, in order.
pub open spec fn spec_assoc_insert_all<V>(acc: Seq<(u64, V)>, pairs: Seq<(u64, V)>) -> Seq<
    (u64, V),
>
    decreases pairs.len(),
{
    if pairs.len() == 0 {
        acc
    } else {
        spec_assoc_insert(
            spec_assoc_insert_all(acc, pairs.drop_last()),
            pairs.last().0,
            pairs.last().1,
        )
    }
}

impl Database {
    /// Load a database from a file image: parse it fully, check the
    /// version-1 extra data (timestamp, then database version), and
    /// materialize every object, a later object superseding an earlier
    /// one under the same id.
    pub fn from_bytes(data: &[u8]) -> (r: Result<Self, DatabaseParseError>)
        ensures
            (spec_database_decode(data@) matches Err(e) ==> r == Err::<Database,
            DatabaseParseError>(e)),
            (spec_database_decode(data@) matches Ok(m) && m.header.extra_data.len() < 16 ==> r
                matches Err(DatabaseParseError::HeaderParsingError(_))),
            (spec_database_decode(data@) matches Ok(m) && m.header.extra_data.len() >= 16 ==> r
                is Ok),
            (r matches Ok(db) ==> spec_database_decode(data@) matches Ok(m) && ({
                let pairs = spec_objects_of_raw_pairs(m.objects);
                &&& m.header.extra_data.len() >= 16
                &&& db.wf()
                &&& db@.objects == spec_assoc_insert_all(Seq::<(u64, ObjectModel)>::empty(), pairs)
                &&& db@.last_updated == spec_u64_from_be_bytes(m.header.extra_data.subrange(0, 8))
                &&& db@.database_version == spec_u64_from_be_bytes(
                    m.header.extra_data.subrange(8, 16),
                )
            })),
    {
        let raw_database = match RawDatabaseFile::decode(data) {
            Ok(db) => db,
            Err(e) => {
                return Err(e);
            },
        };
        if raw_database.header.extra_data.len() < 16 {
            return Err(DatabaseParseError::HeaderParsingError("missing v1 extra data"));
        }
        let extra = raw_database.header.extra_data.as_slice();
        let timestamp = u64_from_be_at(extra, 0);
        let version = u64_from_be_at(extra, 8);
        let mut database = Database {
            objects: Vec::new(),
            last_updated: timestamp,
            database_version: version,
        };
        let ghost pairs = spec_objects_of_raw_pairs(raw_database@.objects);
        proof {
            assert(database@.objects =~= Seq::<(u64, ObjectModel)>::empty());
            crate::raw_database_file::lemma_parse_objects_compression(
                data@,
                raw_database@.object_map,
            );
        }
        let count = raw_database.objects.len();
        let mut i: usize = 0;
        while i < count
            invariant
                i <= count,
                count == raw_database@.objects.len(),
                count == raw_database.objects@.len(),
                database.wf(),
                pairs == spec_objects_of_raw_pairs(raw_database@.objects),
                forall|j: int|
                    0 <= j < count ==> (#[trigger] raw_database@.objects[j]).1.compression <= 1,
                forall|j: int|
                    0 <= j < count ==> #[trigger] raw_database@.objects[j] == (
                    raw_database.objects@[j].0,
                    raw_database.objects@[j].1@,
                ),
                database@.objects == spec_assoc_insert_all(
                    Seq::<(u64, ObjectModel)>::empty(),
                    pairs.take(i as int),
                ),
                database@.last_updated == timestamp,
                database@.database_version == version,
            decreases count - i,
        {
            let id = raw_database.objects[i].0;
            proof {
                assert(raw_database@.objects[i as int] == (
                    raw_database.objects@[i as int].0,
                    raw_database.objects@[i as int].1@,
                ));
                assert(raw_database@.objects[i as int].1.compression <= 1);
            }
            let obj = Object::from_raw(&raw_database.objects[i].1);
            database.add_object(id, obj);
            proof {
                let pre = pairs.take(i as int);
                let post = pairs.take(i + 1);
                assert(post.drop_last() =~= pre);
                assert(post.last() == pairs[i as int]);
            }
            i = i + 1;
        }
        proof {
            assert(pairs.take(count as int) =~= pairs);
        }
        Ok(database)
    }

    /// Whether the database can be serialized: the ids are pairwise
    /// distinct, every object is uncompressed with at least one entry
    /// of a positive entry size, every entry holds exactly that many
    /// bytes, and the whole image fits the machine. `as_bytes` requires
    /// exactly this.
    pub fn is_encodable(&self) -> (r: bool)
        ensures
            r == (self.wf() && spec_db_encodable(self@.objects)),
    {
        let ghost objs = self@.objects;
        let n = self.objects.len();
        let mut i: usize = 0;
        while i < n
            invariant
                i <= n,
                n == self.objects@.len(),
                objs == self@.objects,
                forall|a: int, b: int|
                    0 <= a < b < i ==> (#[trigger] objs[a]).0 != (#[trigger] objs[b]).0,
            decreases n - i,
        {
            let mut j: usize = 0;
            while j < i
                invariant
                    j <= i,
                    i < n,
                    n == self.objects@.len(),
                    objs == self@.objects,
                    forall|a: int| 0 <= a < j ==> (#[trigger] objs[a]).0 != objs[i as int].0,
                decreases i - j,
            {
                if self.objects[j].0 == self.objects[i].0 {
                    proof {
                        let jj = j as int;
                        let ii = i as int;
                        assert(objs[jj] == (self.objects@[jj].0, self.objects@[jj].1@));
                        assert(objs[ii] == (self.objects@[ii].0, self.objects@[ii].1@));
                        assert(objs[jj].0 == objs[ii].0 && jj < ii);
                        assert(!spec_unique_ids(objs));
                    }
                    return false;
                }
                j = j + 1;
            }
            proof {
                assert(forall|a: int, b: int|
                    0 <= a < b < i + 1 ==> (#[trigger] objs[a]).0 != (#[trigger] objs[b]).0);
            }
            i = i + 1;
        }
        if n > (usize::MAX - 48) / 16 {
            proof {
                lemma_bodies_len_nonneg(objs, n as int);
                assert(16 * n > usize::MAX - 48) by (nonlinear_arith)
                    requires
                        n > (usize::MAX - 48) / 16,
                ;
            }
            return false;
        }
        proof {
            assert(16 * n <= usize::MAX - 48) by (nonlinear_arith)
                requires
                    n <= (usize::MAX - 48) / 16,
            ;
        }
        let mut total: usize = 48 + 16 * n;
        let mut i: usize = 0;
        while i < n
            invariant
                i <= n,
                n == self.objects@.len(),
                objs == self@.objects,
                total == 48 + 16 * n + spec_bodies_len(objs, i as int),
                forall|k: int| 0 <= k < i ==> spec_object_encodable((#[trigger] objs[k]).1),
            decreases n - i,
        {
            let obj = &self.objects[i].1;
            let ghost m = objs[i as int].1;
            match obj.compression_type {
                ObjectCompressionType::NoCompression => (),
                ObjectCompressionType::DEFLATE => {
                    proof {
                        assert(!spec_object_encodable(objs[i as int].1));
                        assert(!spec_db_encodable(objs));
                    }
                    return false;
                },
            }
            if obj.entry_size == 0 || obj.data.len() == 0 {
                proof {
                    assert(!spec_object_encodable(objs[i as int].1));
                    assert(!spec_db_encodable(objs));
                }
                return false;
            }
            let size = obj.entry_size as usize;
            let count = obj.data.len();
            let mut k: usize = 0;
            while k < count
                invariant
                    k <= count,
                    count == obj.data@.len(),
                    size == obj.entry_size,
                    m == obj@,
                    i < n,
                    n == self.objects@.len(),
                    objs == self@.objects,
                    m == objs[i as int].1,
                    forall|e: int|
                        0 <= e < k ==> (#[trigger] obj@.data[e]).len() == obj.entry_size,
                decreases count - k,
            {
                if obj.data[k].len() != size {
                    proof {
                        assert(obj@.data[k as int] =~= obj.data@[k as int]@);
                        assert(!spec_object_encodable(objs[i as int].1));
                        assert(!spec_db_encodable(objs));
                    }
                    return false;
                }
                proof {
                    assert(obj@.data[k as int] =~= obj.data@[k as int]@);
                }
                k = k + 1;
            }
            if count > (usize::MAX - 31) / size {
                proof {
                    assert(count * size > usize::MAX - 31) by (nonlinear_arith)
                        requires
                            count > (usize::MAX - 31) as int / (size as int),
                            size >= 1,
                    ;
                    assert(!spec_object_encodable(objs[i as int].1));
                    assert(!spec_db_encodable(objs));
                }
                return false;
            }
            proof {
                assert(count * size <= usize::MAX - 31) by (nonlinear_arith)
                    requires
                        count <= (usize::MAX - 31) as int / (size as int),
                        size >= 1,
                ;
            }
            let unpadded: usize = 16 + count * size;
            let padded: usize = crate::wire::align16(unpadded as u64) as usize;
            proof {
                crate::wire::lemma_align16(unpadded as int);
                assert(padded == spec_object_padded_len(m));
                assert(spec_object_encodable(m));
            }
            if padded > usize::MAX - total {
                proof {
                    lemma_bodies_len_mono_tail(objs, i + 1, n as int);
                    assert(48 + 16 * n + spec_bodies_len(objs, n as int) > usize::MAX);
                }
                return false;
            }
            total = total + padded;
            i = i + 1;
        }
        proof {
            assert(spec_db_encodable(objs));
        }
        true
    }

    /// Serialize the database with the given last-modified timestamp:
    /// header, object map, then each object's padded body, offsets
    /// computed in layout order.
    #[verifier::rlimit(100)]
    #[verifier::spinoff_prover]
    pub fn as_bytes_with_timestamp(&self, timestamp: u64) -> (r: Vec<u8>)
        requires
            self.wf(),
            spec_db_encodable(self@.objects),
        ensures
            r@ == spec_database_encode(self@.objects, self@.database_version, timestamp),
    {
        let ghost objs = self@.objects;
        let mut extra: Vec<u8> = Vec::new();
        push_u64_be(&mut extra, timestamp);
        push_u64_be(&mut extra, self.database_version);
        proof {
            assert(extra@ =~= spec_v1_extra(timestamp, self@.database_version));
        }
        let count = self.objects.len();
        let header = Header::new(count as u64, extra);
        let mut output = header.to_bytes();
        proof {
            lemma_bodies_len_bounds(objs, 0);
            assert(16 * count <= usize::MAX - 48);
        }
        let base: usize = output.len() + 16 * count;
        let mut maps: Vec<ObjectMapping> = Vec::new();
        let mut bodies: Vec<u8> = Vec::new();
        let mut i: usize = 0;
        while i < count
            invariant
                i <= count,
                count == objs.len(),
                objs == self@.objects,
                self.wf(),
                spec_db_encodable(objs),
                count == self.objects@.len(),
                base == crate::header::spec_header_len_of(16) + 16 * count,
                bodies@ == spec_db_bodies(objs.take(i as int)),
                bodies@.len() == spec_bodies_len(objs, i as int),
                maps@ =~= spec_db_mappings(objs, base as int).take(i as int),
            decreases count - i,
        {
            proof {
                lemma_bodies_len_bounds(objs, i as int);
                lemma_bodies_len_bounds(objs, i + 1);
            }
            let offset: usize = base + bodies.len();
            maps.push(ObjectMapping::new(self.objects[i].0, offset as u64));
            let entry = &self.objects[i].1;
            let raw = RawObject {
                format: entry.format,
                compression: entry.compression_type.get_value(),
                entry_type: entry.entry_type,
                entry_size: entry.entry_size,
                length: 0,
                data: clone_entries(&entry.data),
            };
            proof {
                assert(raw@ == spec_raw_of_object(objs[i as int].1));
            }
            let mut body = match raw.to_bytes() {
                Ok(b) => b,
                Err(_) => {
                    proof {
                        assert(false);
                    }
                    Vec::new()
                },
            };
            proof {
                let pre = objs.take(i as int);
                let post = objs.take(i + 1);
                assert(post.drop_last() =~= pre);
                assert(post.last() == objs[i as int]);
                assert(spec_object_encodable(objs[i as int].1));
                crate::object::lemma_concat_len(
                    objs[i as int].1.data,
                    objs[i as int].1.entry_size as int,
                );
                crate::wire::lemma_align16(16 + objs[i as int].1.data.len() * (
                objs[i as int].1.entry_size as int));
                assert(body@.len() == spec_object_padded_len(objs[i as int].1));
            }
            bodies.append(&mut body);
            proof {
                assert(bodies@ =~= spec_db_bodies(objs.take(i + 1)));
            }
            i = i + 1;
        }
        let map_obj = ObjectMap { mappings: maps };
        let mut map_bytes = map_obj.to_bytes();
        proof {
            assert(objs.take(count as int) =~= objs);
            assert(spec_db_mappings(objs, base as int).take(count as int) =~= spec_db_mappings(
                objs,
                base as int,
            ));
        }
        output.append(&mut map_bytes);
        output.append(&mut bodies);
        proof {
            assert(output@ =~= spec_database_encode(objs, self@.database_version, timestamp));
        }
        output
    }

    /// Serialize the database, stamping the current wall-clock time as
    /// the last-modified timestamp: every call produces a fresh stamp,
    /// not the value read at parse time.
    pub fn as_bytes(&self) -> (r: Vec<u8>)
        requires
            self.wf(),
            spec_db_encodable(self@.objects),
        ensures
            exists|ts: u64| r@ == spec_database_encode(self@.objects, self@.database_version, ts),
    {
        let timestamp = current_unix_seconds();
        let r = self.as_bytes_with_timestamp(timestamp);
        proof {
            assert(r@ == spec_database_encode(self@.objects, self@.database_version, timestamp));
        }
        r
    }
}

} // verus!

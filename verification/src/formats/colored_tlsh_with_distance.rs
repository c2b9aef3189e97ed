//! Object format 0x0003, ColoredTLSHWithDistance: a list of binary TLSH
//! hashes, each paired with the SHA-256 hash of its sample and a
//! detection distance.

use crate::database::{Object, ObjectCompressionType, ObjectImpl};
use vstd::prelude::*;
use vstd::slice::slice_to_vec;

verus! {

/// One entry: a 36-byte binary TLSH hash, a 32-byte SHA-256 hash, and
/// a detection distance.
#[derive(Debug, Clone)]
pub struct ColoredTLSHWithDistanceEntry {
    pub tlsh_bytes: Vec<u8>,
    pub sha256_hash: Vec<u8>,
    pub distance: u8,
}

/// The mathematical content of one entry.
pub ghost struct ColoredTLSHWithDistanceEntryModel {
    pub tlsh_bytes: Seq<u8>,
    pub sha256_hash: Seq<u8>,
    pub distance: u8,
}

impl View for ColoredTLSHWithDistanceEntry {
    type V = ColoredTLSHWithDistanceEntryModel;

    open spec fn view(&self) -> ColoredTLSHWithDistanceEntryModel {
        ColoredTLSHWithDistanceEntryModel {
            tlsh_bytes: self.tlsh_bytes@,
            sha256_hash: self.sha256_hash@,
            distance: self.distance,
        }
    }
}

/// The 69 bytes an entry occupies on disk: the TLSH bytes, the SHA-256
/// bytes, then the distance.
pub open spec fn spec_distance_entry_bytes(e: ColoredTLSHWithDistanceEntryModel) -> Seq<u8> {
    e.tlsh_bytes + e.sha256_hash + seq![e.distance]
}

/// A list of colored TLSH entries with distances.
pub struct ColoredTLSHWithDistanceObject {
    entries: Vec<ColoredTLSHWithDistanceEntry>,
}

impl View for ColoredTLSHWithDistanceObject {
    type V = Seq<ColoredTLSHWithDistanceEntryModel>;

    closed spec fn view(&self) -> Seq<ColoredTLSHWithDistanceEntryModel> {
        Seq::new(self.entries@.len(), |i: int| self.entries@[i]@)
    }
}

impl ColoredTLSHWithDistanceObject {
    /// Every entry holds a 36-byte TLSH hash and a 32-byte SHA-256
    /// hash.
    pub open spec fn wf(&self) -> bool {
        forall|i: int|
            0 <= i < self@.len() ==> (#[trigger] self@[i]).tlsh_bytes.len() == 36
                && self@[i].sha256_hash.len() == 32
    }

    /// A new, empty list.
    pub fn empty() -> (r: Self)
        ensures
            r@ == Seq::<ColoredTLSHWithDistanceEntryModel>::empty(),
            r.wf(),
    {
        let r = Self { entries: Vec::new() };
        proof {
            assert(r@ =~= Seq::<ColoredTLSHWithDistanceEntryModel>::empty());
        }
        r
    }

    /// The stored entries.
    pub fn get_entries(&self) -> (r: &Vec<ColoredTLSHWithDistanceEntry>)
        ensures
            r@.len() == self@.len(),
            forall|i: int| 0 <= i < self@.len() ==> #[trigger] r@[i]@ == self@[i],
    {
        &self.entries
    }

    /// Append one entry from its two hashes and its distance.
    pub fn add_entry(&mut self, tlsh_hash: &[u8], sha_hash: &[u8], distance: u8)
        requires
            tlsh_hash@.len() == 36,
            sha_hash@.len() == 32,
        ensures
            final(self)@ == old(self)@.push(
                ColoredTLSHWithDistanceEntryModel {
                    tlsh_bytes: tlsh_hash@,
                    sha256_hash: sha_hash@,
                    distance,
                },
            ),
            old(self).wf() ==> final(self).wf(),
    {
        self.entries.push(
            ColoredTLSHWithDistanceEntry {
                tlsh_bytes: slice_to_vec(tlsh_hash),
                sha256_hash: slice_to_vec(sha_hash),
                distance,
            },
        );
        proof {
            assert(self@ =~= old(self)@.push(
                ColoredTLSHWithDistanceEntryModel {
                    tlsh_bytes: tlsh_hash@,
                    sha256_hash: sha_hash@,
                    distance,
                },
            ));
        }
    }
}

impl ObjectImpl for ColoredTLSHWithDistanceObject {
    /// The stable name of this format.
    fn name() -> &'static str {
        "ColoredTLSHWithDistance"
    }

    /// Lower the list to a generic object: format 0x0003, uncompressed,
    /// entry type 0, 69-byte entries of TLSH bytes, SHA-256 bytes, then
    /// the distance byte.
    fn to_object(self) -> (o: Object)
        ensures
            o@.format == 3,
            o@.compression == ObjectCompressionType::NoCompression,
            o@.entry_type == 0,
            o@.entry_size == 69,
            o@.data.len() == self@.len(),
            forall|i: int|
                0 <= i < self@.len() ==> #[trigger] o@.data[i] == spec_distance_entry_bytes(
                    self@[i],
                ),
    {
        let ghost model = self@;
        let entries = self.entries;
        let mut data: Vec<Vec<u8>> = Vec::new();
        let mut i: usize = 0;
        while i < entries.len()
            invariant
                i <= entries@.len(),
                model.len() == entries@.len(),
                forall|k: int| 0 <= k < entries@.len() ==> #[trigger] entries@[k]@ == model[k],
                data@.len() == i,
                forall|k: int|
                    0 <= k < i ==> #[trigger] data.deep_view()[k] == spec_distance_entry_bytes(
                        model[k],
                    ),
            decreases entries@.len() - i,
        {
            let ghost prev_dv = data.deep_view();
            let entry = &entries[i];
            let mut e_vec = slice_to_vec(entry.tlsh_bytes.as_slice());
            e_vec.extend_from_slice(entry.sha256_hash.as_slice());
            e_vec.push(entry.distance);
            proof {
                assert(entries@[i as int]@ == model[i as int]);
            }
            data.push(e_vec);
            proof {
                assert(forall|k: int| 0 <= k < i ==> #[trigger] data.deep_view()[k] == prev_dv[k]);
                assert(data.deep_view()[i as int] =~= spec_distance_entry_bytes(
                    model[i as int],
                ));
            }
            i = i + 1;
        }
        Object {
            format: 0x0003,
            compression_type: ObjectCompressionType::NoCompression,
            entry_type: 0,
            entry_size: 69,
            data,
        }
    }

    /// Recover a list from a generic object. Yields nothing unless the
    /// object has format 0x0003 and every entry holds at least the 69
    /// bytes of the two hashes and the distance; bytes past them are
    /// ignored.
    fn from_object(obj: Object) -> (r: Option<Self>)
        ensures
            (r matches Some(o) ==> obj@.format == 3 && o.wf() && o@.len() == obj@.data.len()
                && forall|i: int|
                0 <= i < obj@.data.len() ==> (#[trigger] o@[i]).tlsh_bytes == obj@.data[i].subrange(
                    0,
                    36,
                ) && o@[i].sha256_hash == obj@.data[i].subrange(36, 68) && o@[i].distance
                    == obj@.data[i][68]),
            (r is None ==> obj@.format != 3 || exists|i: int|
                0 <= i < obj@.data.len() && (#[trigger] obj@.data[i]).len() < 69),
    {
        let ghost om = obj@;
        if obj.format != 0x0003 {
            return None;
        }
        let data = &obj.data;
        proof {
            assert(om.data == data.deep_view());
        }
        let mut entries: Vec<ColoredTLSHWithDistanceEntry> = Vec::new();
        let mut i: usize = 0;
        while i < data.len()
            invariant
                i <= data@.len(),
                om == obj@,
                om.data == data.deep_view(),
                om.format == 3,
                entries@.len() == i,
                forall|k: int|
                    0 <= k < i ==> (#[trigger] entries@[k]@).tlsh_bytes == data.deep_view()[
                        k
                    ].subrange(0, 36) && entries@[k]@.sha256_hash == data.deep_view()[k].subrange(
                        36,
                        68,
                    ) && entries@[k]@.distance == data.deep_view()[k][68],
                forall|k: int| 0 <= k < i ==> (#[trigger] data.deep_view()[k]).len() >= 69,
            decreases data@.len() - i,
        {
            let entry = &data[i];
            if entry.len() < 69 {
                proof {
                    assert(data.deep_view()[i as int] =~= entry@);
                    assert((om.data[i as int]).len() < 69);
                }
                return None;
            }
            let tlsh = slice_to_vec(vstd::slice::slice_subrange(entry.as_slice(), 0, 36));
            let sha = slice_to_vec(vstd::slice::slice_subrange(entry.as_slice(), 36, 68));
            let distance = entry[68];
            entries.push(
                ColoredTLSHWithDistanceEntry { tlsh_bytes: tlsh, sha256_hash: sha, distance },
            );
            i = i + 1;
        }
        Some(Self { entries })
    }
}

} // verus!

//! Object format 0x0001, SimpleTLSH: a list of standard 35-byte TLSH
//! hashes, stored either as 70-character hexadecimal strings or as raw
//! 35-byte entries.

use crate::database::{Object, ObjectCompressionType, ObjectImpl};
use vstd::prelude::*;
use vstd::slice::slice_to_vec;
use vstd::string::StringSliceAdditionalSpecFns;

verus! {

/// Whether a byte is an ASCII hexadecimal digit.
pub open spec fn spec_is_hex_digit(b: u8) -> bool {
    (48 <= b <= 57) || (97 <= b <= 102) || (65 <= b <= 70)
}

/// The value of an ASCII hexadecimal digit.
pub open spec fn spec_hex_digit_value(b: u8) -> u8 {
    if 48 <= b <= 57 {
        (b - 48) as u8
    } else if 97 <= b <= 102 {
        (b - 87) as u8
    } else {
        (b - 55) as u8
    }
}

/// The lowercase ASCII digit of a value below 16.
pub open spec fn spec_hex_digit_of_value(v: u8) -> u8 {
    if v < 10 {
        (v + 48) as u8
    } else {
        (v + 87) as u8
    }
}

/// Whether a byte string is well-formed hexadecimal: even length, every
/// byte a hexadecimal digit.
pub open spec fn spec_hex_ok(s: Seq<u8>) -> bool {
    s.len() % 2 == 0 && forall|i: int| 0 <= i < s.len() ==> spec_is_hex_digit(#[trigger] s[i])
}

/// The bytes a hexadecimal byte string decodes to, two digits per byte.
pub open spec fn spec_decode_hex(s: Seq<u8>) -> Seq<u8> {
    Seq::new(
        (s.len() / 2) as nat,
        |i: int| (16 * spec_hex_digit_value(s[2 * i]) + spec_hex_digit_value(s[2 * i + 1])) as u8,
    )
}

/// The lowercase hexadecimal digits of a byte string, two per byte.
pub open spec fn spec_encode_hex(bytes: Seq<u8>) -> Seq<u8> {
    Seq::new(
        2 * bytes.len(),
        |i: int|
            if i % 2 == 0 {
                spec_hex_digit_of_value(bytes[i / 2] / 16)
            } else {
                spec_hex_digit_of_value(bytes[i / 2] % 16)
            },
    )
}

/// The bytes of an ASCII character string, one byte per character.
pub open spec fn spec_ascii_bytes(s: Seq<char>) -> Seq<u8> {
    Seq::new(s.len(), |i: int| s[i] as u8)
}

/// Whether every character of a string is ASCII.
pub open spec fn spec_all_ascii(s: Seq<char>) -> bool {
    vstd::utf8::is_ascii_chars(s)
}

/// Relies on String::from_utf8: ASCII bytes decode to the string whose
/// characters are exactly those bytes.
#[verifier::external_body]
fn ascii_bytes_to_string(bytes: Vec<u8>) -> (r: String)
    requires
        forall|i: int| 0 <= i < bytes@.len() ==> #[trigger] bytes@[i] < 128,
    ensures
        r@.len() == bytes@.len(),
        forall|i: int| 0 <= i < bytes@.len() ==> #[trigger] r@[i] == bytes@[i] as char,
        spec_all_ascii(r@),
{
    String::from_utf8(bytes).unwrap()
}

/// Decode a hexadecimal string to bytes: two digits per byte. Yields
/// nothing when the length is odd or any character is not a digit.
pub fn decode_hex(s: &str) -> (r: Option<Vec<u8>>)
    ensures
        r is Some <==> spec_hex_ok(s.spec_bytes()),
        (r matches Some(v) ==> v@ == spec_decode_hex(s.spec_bytes())),
{
    let bytes = s.as_bytes();
    if bytes.len() % 2 != 0 {
        return None;
    }
    let blen = bytes.len();
    let half = blen / 2;
    proof {
        assert(2 * (bytes@.len() as int / 2) == bytes@.len());
    }
    let mut out: Vec<u8> = Vec::new();
    let mut i: usize = 0;
    while i < half
        invariant
            i <= half,
            bytes@ == s.spec_bytes(),
            bytes@.len() % 2 == 0,
            blen == bytes@.len(),
            half == bytes@.len() / 2,
            2 * half == bytes@.len(),
            out@.len() == i,
            forall|j: int| 0 <= j < 2 * i ==> spec_is_hex_digit(#[trigger] bytes@[j]),
            forall|j: int| 0 <= j < i ==> out@[j] == spec_decode_hex(bytes@)[j],
        decreases half - i,
    {
        let hi = bytes[2 * i];
        let lo = bytes[2 * i + 1];
        let hv = match hex_digit_value(hi) {
            Some(v) => v,
            None => {
                return None;
            },
        };
        let lv = match hex_digit_value(lo) {
            Some(v) => v,
            None => {
                return None;
            },
        };
        out.push(16 * hv + lv);
        i = i + 1;
    }
    proof {
        assert(out@ =~= spec_decode_hex(bytes@));
    }
    Some(out)
}

/// The value of one hexadecimal digit, or nothing for any other byte.
fn hex_digit_value(b: u8) -> (r: Option<u8>)
    ensures
        r is Some <==> spec_is_hex_digit(b),
        (r matches Some(v) ==> v == spec_hex_digit_value(b) && v < 16),
{
    if 48 <= b && b <= 57 {
        Some(b - 48)
    } else if 97 <= b && b <= 102 {
        Some(b - 87)
    } else if 65 <= b && b <= 70 {
        Some(b - 55)
    } else {
        None
    }
}

/// Encode bytes as a lowercase hexadecimal string, two digits per byte.
pub fn encode_hex(bytes: &[u8]) -> (r: String)
    ensures
        r@.len() == 2 * bytes@.len(),
        spec_ascii_bytes(r@) == spec_encode_hex(bytes@),
        spec_all_ascii(r@),
{
    let mut digits: Vec<u8> = Vec::new();
    let mut i: usize = 0;
    while i < bytes.len()
        invariant
            i <= bytes@.len(),
            digits@.len() == 2 * i,
            forall|j: int| 0 <= j < 2 * i ==> digits@[j] == spec_encode_hex(bytes@)[j],
            forall|j: int| 0 <= j < 2 * i ==> #[trigger] digits@[j] < 128,
        decreases bytes@.len() - i,
    {
        let b = bytes[i];
        digits.push(hex_digit_of_value(b / 16));
        digits.push(hex_digit_of_value(b % 16));
        i = i + 1;
    }
    let r = ascii_bytes_to_string(digits);
    proof {
        assert(spec_ascii_bytes(r@) =~= spec_encode_hex(bytes@));
    }
    r
}

/// The lowercase hexadecimal digit of a value below 16.
fn hex_digit_of_value(v: u8) -> (r: u8)
    requires
        v < 16,
    ensures
        r == spec_hex_digit_of_value(v),
        r < 128,
{
    if v < 10 {
        v + 48
    } else {
        v + 87
    }
}

/// How the entries of a SimpleTLSH object are stored: as hexadecimal
/// strings or as raw bytes. A value of this type also selects the
/// storage mode of a [`SimpleTLSHObject`], through the payload-free
/// values `Hex(String::new())` and `Raw(Vec::new())`.
#[derive(Debug)]
pub enum SimpleTLSHEntryType {
    Hex(String),
    Raw(Vec<u8>),
}

/// The mathematical content of one stored entry: its bytes. A
/// hexadecimal entry contributes the bytes of its characters, a raw
/// entry its bytes themselves.
pub open spec fn spec_entry_bytes(e: SimpleTLSHEntryType) -> Seq<u8> {
    match e {
        SimpleTLSHEntryType::Hex(s) => spec_ascii_bytes(s@),
        SimpleTLSHEntryType::Raw(v) => v@,
    }
}

/// The on-disk entry-type code of a storage mode.
pub open spec fn spec_entry_mode(e: SimpleTLSHEntryType) -> u16 {
    match e {
        SimpleTLSHEntryType::Hex(_) => 0u16,
        SimpleTLSHEntryType::Raw(_) => 1u16,
    }
}

impl SimpleTLSHEntryType {
    /// The on-disk entry-type code of this storage mode.
    pub fn as_value(&self) -> (r: u16)
        ensures
            r == spec_entry_mode(*self),
    {
        match self {
            SimpleTLSHEntryType::Hex(_) => 0,
            SimpleTLSHEntryType::Raw(_) => 1,
        }
    }

    /// The entry size this storage mode occupies on disk: 70 bytes of
    /// hexadecimal digits, or the raw 35 bytes.
    pub fn entry_len(&self) -> (r: u16)
        ensures
            r == spec_mode_entry_len(spec_entry_mode(*self)),
    {
        match self {
            SimpleTLSHEntryType::Hex(_) => 70,
            SimpleTLSHEntryType::Raw(_) => 35,
        }
    }
}

/// The entry size a storage mode occupies on disk.
pub open spec fn spec_mode_entry_len(mode: u16) -> u16 {
    if mode == 0 {
        70u16
    } else {
        35u16
    }
}

/// The mathematical content of a [`SimpleTLSHObject`].
pub ghost struct SimpleTLSHModel {
    /// The storage mode: 0 for hexadecimal, 1 for raw.
    pub entry_type: u16,
    /// Whether compressed storage was requested for this object.
    pub compressed: bool,
    /// The stored entries' bytes.
    pub entries: Seq<Seq<u8>>,
}

/// A list of TLSH hashes, stored in one of the two modes of
/// [`SimpleTLSHEntryType`].
pub struct SimpleTLSHObject {
    entries: Vec<SimpleTLSHEntryType>,
    entry_type: SimpleTLSHEntryType,
    compressed: bool,
}

impl View for SimpleTLSHObject {
    type V = SimpleTLSHModel;

    closed spec fn view(&self) -> SimpleTLSHModel {
        SimpleTLSHModel {
            entry_type: spec_entry_mode(self.entry_type),
            compressed: self.compressed,
            entries: Seq::new(self.entries@.len(), |i: int| spec_entry_bytes(self.entries@[i])),
        }
    }
}

/// One stored entry is well formed for a storage mode: a hexadecimal
/// entry is a 70-character ASCII string in hexadecimal mode, a raw
/// entry is 35 bytes in raw mode.
pub open spec fn spec_entry_wf(e: SimpleTLSHEntryType, mode: u16) -> bool {
    match e {
        SimpleTLSHEntryType::Hex(s) => mode == 0 && s@.len() == 70 && spec_all_ascii(s@),
        SimpleTLSHEntryType::Raw(v) => mode == 1 && v@.len() == 35,
    }
}

impl SimpleTLSHObject {
    /// Every stored entry matches the storage mode: a 70-character
    /// ASCII string, or 35 raw bytes.
    pub closed spec fn wf(&self) -> bool {
        forall|i: int|
            0 <= i < self.entries@.len() ==> spec_entry_wf(
                #[trigger] self.entries@[i],
                spec_entry_mode(self.entry_type),
            )
    }

    /// A new, empty list that will store hashes in the given mode.
    pub fn new(entry_type: SimpleTLSHEntryType) -> (r: Self)
        ensures
            r@.entry_type == spec_entry_mode(entry_type),
            r@.compressed == false,
            r@.entries == Seq::<Seq<u8>>::empty(),
            r.wf(),
    {
        let r = Self { entries: Vec::new(), entry_type, compressed: false };
        proof {
            assert(r@.entries =~= Seq::<Seq<u8>>::empty());
        }
        r
    }

    /// A new, empty list with compressed storage requested.
    pub fn new_compressed(entry_type: SimpleTLSHEntryType) -> (r: Self)
        ensures
            r@.entry_type == spec_entry_mode(entry_type),
            r@.compressed == true,
            r@.entries == Seq::<Seq<u8>>::empty(),
            r.wf(),
    {
        let r = Self { entries: Vec::new(), entry_type, compressed: true };
        proof {
            assert(r@.entries =~= Seq::<Seq<u8>>::empty());
        }
        r
    }

    /// Request or revoke compressed storage for this object.
    pub fn set_compressed(&mut self, compressed: bool)
        ensures
            final(self)@ == (SimpleTLSHModel { compressed, ..old(self)@ }),
            old(self).wf() ==> final(self).wf(),
    {
        self.compressed = compressed;
        proof {
            assert(self@.entries =~= old(self)@.entries);
        }
    }

    /// Add a hash given as a 70-character ASCII hexadecimal string. In
    /// raw mode the hash is stored decoded to its 35 bytes; in
    /// hexadecimal mode it is stored as it is.
    pub fn add_hash(&mut self, hash: String)
        requires
            old(self).wf(),
            hash@.len() == 70,
            spec_all_ascii(hash@),
            old(self)@.entry_type == 1 ==> spec_hex_ok(spec_ascii_bytes(hash@)),
        ensures
            final(self).wf(),
            final(self)@.entry_type == old(self)@.entry_type,
            final(self)@.compressed == old(self)@.compressed,
            final(self)@.entries == old(self)@.entries.push(
                if old(self)@.entry_type == 1 {
                    spec_decode_hex(spec_ascii_bytes(hash@))
                } else {
                    spec_ascii_bytes(hash@)
                },
            ),
    {
        let hs = hash.as_str();
        proof {
            assert(hash@ =~= hs@);
            assert(vstd::utf8::is_ascii_chars(hs@));
            vstd::string::is_ascii_spec_bytes(hs);
            assert(hs.spec_bytes() =~= spec_ascii_bytes(hash@));
        }
        let ghost prev = self@.entries;
        let is_raw = match &self.entry_type {
            SimpleTLSHEntryType::Raw(_) => true,
            SimpleTLSHEntryType::Hex(_) => false,
        };
        if is_raw {
            let decoded = match decode_hex(hs) {
                Some(v) => v,
                None => {
                    proof {
                        assert(false);
                    }
                    Vec::new()
                },
            };
            proof {
                assert(decoded@.len() == 35);
            }
            self.entries.push(SimpleTLSHEntryType::Raw(decoded));
        } else {
            self.entries.push(SimpleTLSHEntryType::Hex(hash));
        }
        proof {
            assert(self@.entries =~= prev.push(
                if old(self)@.entry_type == 1 {
                    spec_decode_hex(spec_ascii_bytes(hash@))
                } else {
                    spec_ascii_bytes(hash@)
                },
            ));
            assert(forall|i: int|
                0 <= i < old(self).entries@.len() ==> #[trigger] self.entries@[i] == old(
                    self,
                ).entries@[i]);
        }
    }

    /// Add a hash given as its raw 35 bytes. In hexadecimal mode the
    /// hash is stored encoded as 70 lowercase digits; in raw mode it is
    /// stored as it is.
    pub fn add_raw_hash(&mut self, hash: &[u8])
        requires
            old(self).wf(),
            hash@.len() == 35,
        ensures
            final(self).wf(),
            final(self)@.entry_type == old(self)@.entry_type,
            final(self)@.compressed == old(self)@.compressed,
            final(self)@.entries == old(self)@.entries.push(
                if old(self)@.entry_type == 1 {
                    hash@
                } else {
                    spec_encode_hex(hash@)
                },
            ),
    {
        let ghost prev = self@.entries;
        let is_raw = match &self.entry_type {
            SimpleTLSHEntryType::Raw(_) => true,
            SimpleTLSHEntryType::Hex(_) => false,
        };
        if is_raw {
            self.entries.push(SimpleTLSHEntryType::Raw(slice_to_vec(hash)));
        } else {
            let encoded = encode_hex(hash);
            self.entries.push(SimpleTLSHEntryType::Hex(encoded));
        }
        proof {
            assert(self@.entries =~= prev.push(
                if old(self)@.entry_type == 1 {
                    hash@
                } else {
                    spec_encode_hex(hash@)
                },
            ));
            assert(forall|i: int|
                0 <= i < old(self).entries@.len() ==> #[trigger] self.entries@[i] == old(
                    self,
                ).entries@[i]);
        }
    }

    /// The stored hashes as hexadecimal strings: hexadecimal entries as
    /// they are, raw entries encoded to lowercase digits.
    pub fn get_hashes(&self) -> (r: Vec<String>)
        requires
            self.wf(),
        ensures
            r@.len() == self@.entries.len(),
            forall|i: int|
                0 <= i < self@.entries.len() ==> spec_ascii_bytes(#[trigger] r@[i]@) == (
                if self@.entry_type == 1 {
                    spec_encode_hex(self@.entries[i])
                } else {
                    self@.entries[i]
                }),
    {
        let mut out: Vec<String> = Vec::new();
        let mut i: usize = 0;
        while i < self.entries.len()
            invariant
                i <= self.entries@.len(),
                self.wf(),
                self@.entries.len() == self.entries@.len(),
                out@.len() == i,
                forall|k: int|
                    0 <= k < i ==> spec_ascii_bytes(#[trigger] out@[k]@) == (
                    if self@.entry_type == 1 {
                        spec_encode_hex(self@.entries[k])
                    } else {
                        self@.entries[k]
                    }),
            decreases self.entries@.len() - i,
        {
            proof {
                assert(self@.entries[i as int] == spec_entry_bytes(self.entries@[i as int]));
                assert(spec_entry_wf(self.entries@[i as int], spec_entry_mode(self.entry_type)));
            }
            let s = match &self.entries[i] {
                SimpleTLSHEntryType::Hex(hex) => {
                    let copy = clone_ascii_string(hex);
                    proof {
                        assert(spec_ascii_bytes(copy@) =~= self@.entries[i as int]);
                    }
                    copy
                },
                SimpleTLSHEntryType::Raw(v) => {
                    let enc = encode_hex(v.as_slice());
                    proof {
                        assert(spec_ascii_bytes(enc@) =~= spec_encode_hex(
                            self@.entries[i as int],
                        ));
                    }
                    enc
                },
            };
            out.push(s);
            i = i + 1;
        }
        out
    }
}

/// Copy a string.
fn clone_ascii_string(s: &String) -> (r: String)
    ensures
        r@ == s@,
{
    s.clone()
}

impl ObjectImpl for SimpleTLSHObject {
    /// The stable name of this format.
    fn name() -> &'static str {
        "SimpleTLSH"
    }

    /// Lower the list to a generic object: format 0x0001, uncompressed
    /// (compression is not implemented on the write path), the entry
    /// type and size of the storage mode, and the stored entries'
    /// bytes.
    fn to_object(self) -> (o: Object)
        ensures
            self.wf() ==> ({
                &&& o@.format == 1
                &&& o@.compression == ObjectCompressionType::NoCompression
                &&& o@.entry_type == self@.entry_type
                &&& o@.entry_size == spec_mode_entry_len(self@.entry_type)
                &&& o@.data == self@.entries
            }),
    {
        let ghost wf0 = self.wf();
        let ghost model = self@;
        let entry_type = self.entry_type.as_value();
        let entry_size = self.entry_type.entry_len();
        let mut data: Vec<Vec<u8>> = Vec::new();
        let entries = self.entries;
        let mut i: usize = 0;
        while i < entries.len()
            invariant
                i <= entries@.len(),
                model.entries.len() == entries@.len(),
                forall|k: int|
                    0 <= k < entries@.len() ==> model.entries[k] == spec_entry_bytes(
                        #[trigger] entries@[k],
                    ),
                wf0 ==> forall|k: int|
                    0 <= k < entries@.len() ==> spec_entry_wf(
                        #[trigger] entries@[k],
                        model.entry_type,
                    ),
                data@.len() == i,
                wf0 ==> forall|k: int|
                    0 <= k < i ==> #[trigger] data.deep_view()[k] == model.entries[k],
            decreases entries@.len() - i,
        {
            let ghost prev_dv = data.deep_view();
            let entry_bytes = match &entries[i] {
                SimpleTLSHEntryType::Hex(s) => {
                    let ss = s.as_str();
                    let b = slice_to_vec(ss.as_bytes());
                    proof {
                        if wf0 {
                            assert(spec_entry_wf(entries@[i as int], model.entry_type));
                            assert(vstd::utf8::is_ascii_chars(ss@));
                            vstd::string::is_ascii_spec_bytes(ss);
                            assert(b@ =~= spec_ascii_bytes(ss@));
                            assert(b@ =~= model.entries[i as int]);
                        }
                    }
                    b
                },
                SimpleTLSHEntryType::Raw(v) => {
                    let b = slice_to_vec(v.as_slice());
                    proof {
                        assert(b@ =~= spec_entry_bytes(entries@[i as int]));
                    }
                    b
                },
            };
            data.push(entry_bytes);
            proof {
                assert(forall|k: int| 0 <= k < i ==> #[trigger] data.deep_view()[k] == prev_dv[k]);
                assert(data.deep_view()[i as int] =~= entry_bytes@);
            }
            i = i + 1;
        }
        let o = Object {
            format: 0x0001,
            compression_type: ObjectCompressionType::NoCompression,
            entry_type,
            entry_size,
            data,
        };
        proof {
            if wf0 {
                assert(o@.data =~~= model.entries);
            }
        }
        o
    }

    /// Recover a list from a generic object. Yields nothing unless the
    /// object has format 0x0001, a known entry type with the matching
    /// entry size, and every entry of that size — with, in hexadecimal
    /// mode, ASCII bytes only.
    fn from_object(obj: Object) -> (r: Option<Self>)
        ensures
            (r matches Some(o) ==> ({
                &&& obj@.format == 1
                &&& obj@.entry_type <= 1
                &&& obj@.entry_size == spec_mode_entry_len(obj@.entry_type)
                &&& o@.entry_type == obj@.entry_type
                &&& o@.compressed == (obj@.compression == ObjectCompressionType::DEFLATE)
                &&& o@.entries == obj@.data
                &&& o.wf()
            })),
            (r is None ==> !spec_simple_tlsh_compatible(obj@)),
    {
        let ghost om = obj@;
        if obj.format != 0x0001 {
            return None;
        }
        if obj.entry_type > 1 {
            return None;
        }
        let is_raw = obj.entry_type == 1;
        let expected: u16 = if is_raw {
            35
        } else {
            70
        };
        if obj.entry_size != expected {
            return None;
        }
        let compressed = match obj.compression_type {
            ObjectCompressionType::DEFLATE => true,
            ObjectCompressionType::NoCompression => false,
        };
        let ghost mode = obj.entry_type;
        let mut entries: Vec<SimpleTLSHEntryType> = Vec::new();
        let data = &obj.data;
        let mut i: usize = 0;
        while i < data.len()
            invariant
                i <= data@.len(),
                om == obj@,
                om.data == data.deep_view(),
                om.format == 1,
                mode == om.entry_type,
                is_raw == (mode == 1),
                mode == 0 || mode == 1,
                expected == spec_mode_entry_len(mode),
                entries@.len() == i,
                forall|k: int|
                    0 <= k < i ==> spec_entry_bytes(#[trigger] entries@[k]) == om.data[k]
                        && spec_entry_wf(entries@[k], mode),
            decreases data@.len() - i,
        {
            proof {
                assert(om.data[i as int] =~= data@[i as int]@);
            }
            let entry = &data[i];
            if entry.len() != expected as usize {
                proof {
                    assert((om.data[i as int]).len() != expected);
                    assert(!spec_simple_tlsh_compatible(om));
                }
                return None;
            }
            if is_raw {
                let v = slice_to_vec(entry.as_slice());
                proof {
                    assert(spec_entry_bytes(SimpleTLSHEntryType::Raw(v)) =~= om.data[i as int]);
                }
                entries.push(SimpleTLSHEntryType::Raw(v));
            } else {
                match ascii_checked_string(entry.as_slice()) {
                    Some(s) => {
                        proof {
                            assert(spec_ascii_bytes(s@) =~= om.data[i as int]);
                        }
                        entries.push(SimpleTLSHEntryType::Hex(s));
                    },
                    None => {
                        proof {
                            let ii = i as int;
                            let w = choose|j: int|
                                0 <= j < entry@.len() && !(#[trigger] entry@[j] < 128);
                            assert(om.data[ii][w] >= 128);
                            assert(!spec_simple_tlsh_compatible(om));
                        }
                        return None;
                    },
                }
            }
            i = i + 1;
        }
        let mode_value = if is_raw {
            SimpleTLSHEntryType::Raw(Vec::new())
        } else {
            SimpleTLSHEntryType::Hex(String::new())
        };
        let r = SimpleTLSHObject { entries, entry_type: mode_value, compressed };
        proof {
            assert(r@.entries =~~= om.data);
        }
        Some(r)
    }
}

/// A generic object is compatible with the SimpleTLSH format: format
/// 0x0001, a known entry type with the matching entry size, every entry
/// of that size, and — in hexadecimal mode — ASCII bytes only.
pub open spec fn spec_simple_tlsh_compatible(m: crate::database::ObjectModel) -> bool {
    &&& m.format == 1
    &&& m.entry_type <= 1
    &&& m.entry_size == spec_mode_entry_len(m.entry_type)
    &&& forall|i: int|
        0 <= i < m.data.len() ==> (#[trigger] m.data[i]).len() == m.entry_size && (m.entry_type
            == 0 ==> spec_all_byte_ascii(m.data[i]))
}

/// Whether every byte is below 128.
pub open spec fn spec_all_byte_ascii(s: Seq<u8>) -> bool {
    forall|i: int| 0 <= i < s.len() ==> (#[trigger] s[i]) < 128
}

/// The bytes as an ASCII string, or nothing when some byte is not
/// ASCII.
fn ascii_checked_string(bytes: &[u8]) -> (r: Option<String>)
    ensures
        r is Some <==> spec_all_byte_ascii(bytes@),
        (r matches Some(s) ==> spec_ascii_bytes(s@) == bytes@ && s@.len() == bytes@.len()
            && spec_all_ascii(s@)),
    {
    let mut i: usize = 0;
    while i < bytes.len()
        invariant
            i <= bytes@.len(),
            forall|j: int| 0 <= j < i ==> #[trigger] bytes@[j] < 128,
        decreases bytes@.len() - i,
    {
        if bytes[i] >= 128 {
            return None;
        }
        i = i + 1;
    }
    let s = ascii_bytes_to_string(slice_to_vec(bytes));
    proof {
        assert(spec_ascii_bytes(s@) =~= bytes@);
    }
    Some(s)
}

} // verus!

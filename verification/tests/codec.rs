use simbiota_database::header::{Header, HeaderDecodeError};
use simbiota_database::object::{ObjectDecodeError, RawObject};
use simbiota_database::object_map::{ObjectMap, ObjectMapping, ObjectMappingError};

#[test]
fn test_partial_version() {
    let valid_version_1 = b"CSGM\x00\x00\x00\x01";
    let valid_version_2 = b"CSGM\x00\x00\x00\x02";
    let valid_version_big = b"CSGM\x01\x00\x00\x00";
    let invalid_magic = b"CSBM\x00\x00\x00\x01";
    let invalid_too_short = b"CSGM\x01\x00\x00";

    let version_1 = Header::partial_version(valid_version_1).unwrap();
    assert_eq!(version_1, 1);
    let version_2 = Header::partial_version(valid_version_2).unwrap();
    assert_eq!(version_2, 2);
    let version_big = Header::partial_version(valid_version_big).unwrap();
    assert_ne!(version_big, 1);
    assert_eq!(version_big, 16777216);

    let version_invalid_magic = Header::partial_version(invalid_magic).unwrap_err();
    assert!(matches!(version_invalid_magic, HeaderDecodeError::InvalidMagic));
    let version_too_short = Header::partial_version(invalid_too_short).unwrap_err();
    assert!(matches!(version_too_short, HeaderDecodeError::TooShort));
}

#[test]
fn test_header_from_bytes() {
    let valid_header = b"CSGM\x00\x00\x00\x01\x00\x00\x00\x00\x00\x00\x00\x01\x00\x00\x00\x20\x00\x00\x00\x00\x00\x00\x00\x00\x00\x00\x00\x00";
    let invalid_version = b"CSGM\x00\x00\x00\x02\x00\x00\x00\x00\x00\x00\x00\x01\x00\x00\x00\x20\x00\x00\x00\x00\x00\x00\x00\x00\x00\x00\x00\x00";
    let invalid_magic = b"CSBM\x00\x00\x00\x01\x00\x00\x00\x00\x00\x00\x00\x01\x00\x00\x00\x20\x00\x00\x00\x00\x00\x00\x00\x00\x00\x00\x00\x00";
    let too_short = b"CSGM\x00\x00\x00\x01\x00\x00\x00\x00\x00\x00\x00\x01\x00\x00\x00\x20\x00\x00\x00\x00\x00\x00\x00\x00\x00\x00\x00";
    let invalid_padding = b"CSGM\x00\x00\x00\x01\x00\x00\x00\x00\x00\x00\x00\x01\x00\x00\x00\x14";

    let header = Header::decode(valid_header as &[u8]).unwrap();
    assert_eq!(header.version, 1);
    assert_eq!(header.header_len, 32);
    assert_eq!(header.number_of_objects, 1);
    assert_eq!(header.extra_data.len(), 12);

    let inv_version = Header::decode(invalid_version as &[u8]).unwrap_err();
    assert!(matches!(inv_version, HeaderDecodeError::UnsupportedVersion));

    let inv_magic = Header::decode(invalid_magic as &[u8]).unwrap_err();
    assert!(matches!(inv_magic, HeaderDecodeError::InvalidMagic));

    let too_short = Header::decode(too_short as &[u8]).unwrap_err();
    assert!(matches!(too_short, HeaderDecodeError::TooShort));

    let inv_padding = Header::decode(invalid_padding as &[u8]).unwrap_err();
    assert!(matches!(inv_padding, HeaderDecodeError::InvalidPadding));
}

#[test]
fn test_to_bytes() {
    let header = Header::new(1, Vec::new());
    let valid_header_exp = b"CSGM\x00\x00\x00\x01\x00\x00\x00\x00\x00\x00\x00\x01\x00\x00\x00\x20\x00\x00\x00\x00\x00\x00\x00\x00\x00\x00\x00\x00";
    assert_eq!(header.to_bytes().as_slice(), valid_header_exp);

    let header = Header::new(2, vec![1]);
    let valid_header_exp = b"CSGM\x00\x00\x00\x01\x00\x00\x00\x00\x00\x00\x00\x02\x00\x00\x00\x20\x01\x00\x00\x00\x00\x00\x00\x00\x00\x00\x00\x00";
    assert_eq!(header.to_bytes().as_slice(), valid_header_exp);

    let header = Header::new(2, vec![1, 2, 3, 4, 5, 6, 7, 8, 9, 10, 11, 12]);
    let valid_header_exp = b"CSGM\x00\x00\x00\x01\x00\x00\x00\x00\x00\x00\x00\x02\x00\x00\x00\x20\x01\x02\x03\x04\x05\x06\x07\x08\x09\x0a\x0b\x0c";
    assert_eq!(header.to_bytes().as_slice(), valid_header_exp);

    let header = Header::new(2, vec![1, 2, 3, 4, 5, 6, 7, 8, 9, 10, 11, 12, 13]);
    let valid_header_exp = b"CSGM\x00\x00\x00\x01\x00\x00\x00\x00\x00\x00\x00\x02\x00\x00\x00\x30\x01\x02\x03\x04\x05\x06\x07\x08\x09\x0a\x0b\x0c\x0d\x00\x00\x00\x00\x00\x00\x00\x00\x00\x00\x00\x00\x00\x00\x00";
    assert_eq!(header.to_bytes().as_slice(), valid_header_exp);
}

#[test]
fn test_header_round_trip() {
    // 12 bytes of extra data fill the header exactly to a 16-byte
    // boundary, so decoding the encoding reproduces it byte for byte.
    let extra: Vec<u8> = (1..=12).collect();
    let header = Header::new(7, extra.clone());
    let bytes = header.to_bytes();
    let decoded = Header::decode(bytes.as_slice()).unwrap();
    assert_eq!(decoded.version, 1);
    assert_eq!(decoded.number_of_objects, 7);
    assert_eq!(decoded.header_len as usize, bytes.len());
    assert_eq!(decoded.extra_data, extra);
}

#[test]
fn test_object_load() {
    let data_raw = b"\x00\x01\x00\x00\x00\x01\x00\x10\x00\x00\x00\x00\x00\x00\x00\x30\x00\x00\x00\x00\x00\x00\x00\x00\x00\x00\x00\x00\x00\x00\x00\x01\x00\x00\x00\x00\x00\x00\x00\x00\x00\x00\x00\x00\x00\x00\x00\x02";
    let object = RawObject::decode(data_raw as &[u8]).unwrap();
    assert_eq!(object.format, 0x01);
    assert_eq!(object.compression, 0x00);
    assert_eq!(object.entry_type, 0x01);
    assert_eq!(object.entry_size, 16);
    assert_eq!(object.length, 0x30);
    assert_eq!(object.data.len(), 2);

    let too_short = b"\x00\x01\x00\x00\x00\x01\x00\x10\x00\x00\x00\x00\x00\x00\x00\x30\x00\x00\x00\x00\x00\x00\x00\x00\x00\x00\x00\x00\x00\x00\x00\x01\x00\x00\x00\x00\x00\x00\x00\x00\x00\x00\x00\x00\x00\x00\x00";
    let object = RawObject::decode(too_short as &[u8]).unwrap_err();
    assert!(matches!(object, ObjectDecodeError::TooShort));

    let not_padded = b"\x00\x01\x00\x00\x00\x01\x00\x06\x00\x00\x00\x00\x00\x00\x00\x1c\x00\x00\x00\x00\x00\x00\x00\x00\x00\x00\x00\x00\x00\x00\x00\x01\x00\x00\x00\x00\x00\x00\x00\x00\x00\x00\x00\x00\x00\x00\x00";
    let object = RawObject::decode(not_padded as &[u8]).unwrap_err();
    assert!(matches!(object, ObjectDecodeError::InvalidPadding));
}

#[test]
fn test_object_save() {
    let data_raw = b"\x00\x01\x00\x00\x00\x01\x00\x10\x00\x00\x00\x00\x00\x00\x00\x30\x00\x00\x00\x00\x00\x00\x00\x00\x00\x00\x00\x00\x00\x00\x00\x01\x00\x00\x00\x00\x00\x00\x00\x00\x00\x00\x00\x00\x00\x00\x00\x02";
    let mut object1 = RawObject::new(0x01, 0x00, 0x01, 0x10);
    object1.add_data(vec![0, 0, 0, 0, 0, 0, 0, 0, 0, 0, 0, 0, 0, 0, 0, 1]);
    object1.add_data(vec![0, 0, 0, 0, 0, 0, 0, 0, 0, 0, 0, 0, 0, 0, 0, 2]);
    assert_eq!(object1.to_bytes().unwrap().as_slice(), data_raw);

    let data_raw_padded = b"\x00\x01\x00\x00\x00\x01\x00\x06\x00\x00\x00\x00\x00\x00\x00\x1c\x00\x00\x00\x00\x00\x01\x00\x00\x00\x00\x00\x02\x00\x00\x00\x00";
    let mut object2 = RawObject::new(0x01, 0x00, 0x01, 0x6);
    object2.add_data(vec![0, 0, 0, 0, 0, 1]);
    object2.add_data(vec![0, 0, 0, 0, 0, 2]);

    assert_eq!(object2.to_bytes().unwrap().as_slice(), data_raw_padded);
}

#[test]
fn test_object_round_trip_entry_size_16() {
    // 16 header bytes + two 16-byte entries: exactly 48 bytes on disk,
    // no padding, and the length field records 48 as well.
    let mut object = RawObject::new(0x01, 0x00, 0x01, 16);
    let mut first = vec![0u8; 16];
    first[15] = 1;
    let mut second = vec![0u8; 16];
    second[15] = 2;
    object.add_data(first.clone());
    object.add_data(second.clone());
    let bytes = object.to_bytes().unwrap();
    assert_eq!(bytes.len(), 48);
    let decoded = RawObject::decode(bytes.as_slice()).unwrap();
    assert_eq!(decoded.length, 48);
    assert_eq!(decoded.data, vec![first, second]);
}

#[test]
fn test_object_round_trip_entry_size_6() {
    // Two 6-byte entries: the unpadded length is 16 + 12 = 28, while
    // the on-disk footprint is padded to 32 bytes.
    let mut object = RawObject::new(0x02, 0x00, 0x00, 6);
    object.add_data(vec![0, 0, 0, 0, 0, 1]);
    object.add_data(vec![0, 0, 0, 0, 0, 2]);
    let bytes = object.to_bytes().unwrap();
    assert_eq!(bytes.len(), 32);
    assert_eq!(bytes[15], 28);
    let decoded = RawObject::decode(bytes.as_slice()).unwrap();
    assert_eq!(decoded.length, 28);
    assert_eq!(decoded.data.len(), 2);
    assert_eq!(decoded.data[0], vec![0, 0, 0, 0, 0, 1]);
    assert_eq!(decoded.data[1], vec![0, 0, 0, 0, 0, 2]);
}

#[test]
fn test_object_encode_rejects_compression_and_bad_entries() {
    let mut compressed = RawObject::new(0x01, 0x01, 0x00, 4);
    compressed.add_data(vec![1, 2, 3, 4]);
    let err = compressed.to_bytes().unwrap_err();
    assert!(matches!(err, ObjectDecodeError::UnsupportedCompression(1)));

    let mut mismatched = RawObject::new(0x01, 0x00, 0x00, 4);
    mismatched.add_data(vec![1, 2, 3]);
    let err = mismatched.to_bytes().unwrap_err();
    assert!(matches!(err, ObjectDecodeError::InvalidPadding));
}

#[test]
fn test_mapping_load() {
    let raw_data = b"\x00\x00\x00\x00\x00\x00\x00\x01\x00\x00\x00\x00\x00\x00\x00\x20\x00\x00\x00\x00\x00\x00\x00\x20\x00\x00\x00\x00\x00\x00\x55\xa0";
    let invalid_len = b"\x00\x00\x00\x00\x00\x00\x00\x01\x00\x00\x00\x00\x00\x00\x00\x20\x00\x00\x00\x00\x00\x00\x00\x20\x00\x00\x00\x00\x00\x00\x55";
    let invalid_offset = b"\x00\x00\x00\x00\x00\x00\x00\x01\x00\x00\x00\x00\x00\x00\x00\x20\x00\x00\x00\x00\x00\x00\x00\x20\x00\x00\x00\x00\x00\x00\x55\xaa";
    let mapping = ObjectMap::decode(raw_data as &[u8], 2).unwrap();
    assert_eq!(mapping.mappings.len(), 2);
    assert_eq!(mapping.mappings[0].id, 1);
    assert_eq!(mapping.mappings[1].id, 32);
    assert_eq!(mapping.mappings[0].offset, 32);
    assert_eq!(mapping.mappings[1].offset, 0x55a0);

    let invalid_err = ObjectMap::decode(invalid_len as &[u8], 2).unwrap_err();
    assert!(matches!(invalid_err, ObjectMappingError::InvalidLength));

    // An offset that is not a multiple of 16 fails with the padding
    // error.
    let invalid_err = ObjectMap::decode(invalid_offset as &[u8], 2).unwrap_err();
    assert!(matches!(invalid_err, ObjectMappingError::InvalidPadding));
}

#[test]
fn test_mapping_store() {
    let raw_data = b"\x00\x00\x00\x00\x00\x00\x00\x01\x00\x00\x00\x00\x00\x00\x00\x20\x00\x00\x00\x00\x00\x00\x00\x20\x00\x00\x00\x00\x00\x00\x55\xaa";
    let mut mapping = ObjectMap::new();
    mapping.mappings.push(ObjectMapping { id: 1, offset: 32 });
    mapping.mappings.push(ObjectMapping {
        id: 32,
        offset: 0x55aa,
    });

    assert_eq!(mapping.to_bytes().as_slice(), raw_data);
}

#[test]
fn test_mapping_round_trip() {
    let mut map = ObjectMap::new();
    map.mappings.push(ObjectMapping::new(9, 0x40));
    map.mappings.push(ObjectMapping::new(5, 0x90));
    map.mappings.push(ObjectMapping::new(9, 0x100));
    let bytes = map.to_bytes();
    assert_eq!(bytes.len(), 48);
    let decoded = ObjectMap::decode(bytes.as_slice(), 3).unwrap();
    assert_eq!(decoded.mappings, map.mappings);
}

#[test]
fn test_single_mapping_decode() {
    let record = b"\x00\x00\x00\x00\x00\x00\x00\x07\x00\x00\x00\x00\x00\x00\x01\x00";
    let mapping = ObjectMapping::decode(record as &[u8]).unwrap();
    assert_eq!(mapping.id, 7);
    assert_eq!(mapping.offset, 256);

    let short = ObjectMapping::decode(&record[..15]).unwrap_err();
    assert!(matches!(short, ObjectMappingError::InvalidLength));

    let unaligned = b"\x00\x00\x00\x00\x00\x00\x00\x07\x00\x00\x00\x00\x00\x00\x01\x01";
    let err = ObjectMapping::decode(unaligned as &[u8]).unwrap_err();
    assert!(matches!(err, ObjectMappingError::InvalidPadding));
}

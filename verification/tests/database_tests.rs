use simbiota_database::database::{get_compression_text, LazyDatabaseIndex, ObjectCompressionType};
use simbiota_database::header::{Header, HeaderDecodeError};
use simbiota_database::object::{ObjectDecodeError, RawObject};
use simbiota_database::object_map::ObjectMappingError;
use simbiota_database::raw_database_file::RawDatabaseFile;
use simbiota_database::wire::align16;
use simbiota_database::{Database, DatabaseParseError, Object};

fn sample_object(tag: u8) -> Object {
    Object {
        format: 0x0001,
        compression_type: ObjectCompressionType::NoCompression,
        entry_type: 1,
        entry_size: 4,
        data: vec![vec![tag, 1, 2, 3], vec![tag, 5, 6, 7]],
    }
}

fn objects_equal(a: &Object, b: &Object) -> bool {
    a.format == b.format
        && a.compression_type == b.compression_type
        && a.entry_type == b.entry_type
        && a.entry_size == b.entry_size
        && a.data == b.data
}

#[test]
fn test_database_round_trip() {
    let mut db = Database::new(42);
    db.add_object(1, sample_object(10));
    db.add_object(2, sample_object(20));
    db.add_object(9, sample_object(90));
    let bytes = db.as_bytes_with_timestamp(1700000000);

    let reparsed = Database::from_bytes(bytes.as_slice()).unwrap();
    for id in [1u64, 2, 9] {
        let original = db.get_object(id).unwrap();
        let recovered = reparsed.get_object(id).unwrap();
        assert!(objects_equal(original, recovered));
    }
    assert!(reparsed.get_object(3).is_none());
}

#[test]
fn test_database_round_trip_fresh_timestamp() {
    // as_bytes stamps the current wall clock; the result still parses
    // back to the same objects.
    let mut db = Database::new(1);
    db.add_object(7, sample_object(70));
    let bytes = db.as_bytes();
    let reparsed = Database::from_bytes(bytes.as_slice()).unwrap();
    assert!(objects_equal(db.get_object(7).unwrap(), reparsed.get_object(7).unwrap()));
}

#[test]
fn test_empty_database_round_trip() {
    let db = Database::new(3);
    let bytes = db.as_bytes_with_timestamp(5);
    assert_eq!(bytes.len(), 48);
    let reparsed = Database::from_bytes(bytes.as_slice()).unwrap();
    assert!(reparsed.get_object(0).is_none());
}

#[test]
fn test_add_object_replaces() {
    // Inserting under an existing id replaces the object: last write
    // wins, no merge.
    let mut db = Database::new(1);
    db.add_object(4, sample_object(1));
    db.add_object(4, sample_object(2));
    let stored = db.get_object(4).unwrap();
    assert_eq!(stored.data[0][0], 2);
}

#[test]
fn test_get_object_mut() {
    let mut db = Database::new(1);
    db.add_object(4, sample_object(1));
    {
        let obj = db.get_object_mut(4).unwrap();
        obj.data[0][1] = 99;
    }
    assert_eq!(db.get_object(4).unwrap().data[0][1], 99);
    assert!(db.get_object_mut(5).is_none());
}

#[test]
fn test_lazy_matches_eager() {
    let mut db = Database::new(42);
    db.add_object(1, sample_object(10));
    db.add_object(2, sample_object(20));
    let bytes = db.as_bytes_with_timestamp(1700000000);

    // The lazy facade keeps only the header and the object map; each
    // object is resolved from the bytes at its mapped offset.
    let header_bytes = &bytes[..48];
    let map_bytes = &bytes[48..];
    let index = LazyDatabaseIndex::parse(header_bytes, map_bytes).unwrap();
    assert!(index.has_object(1));
    assert!(index.has_object(2));
    assert!(!index.has_object(3));
    assert!(index.find_mapping(3).is_none());

    for id in [1u64, 2] {
        let mapping = index.find_mapping(id).unwrap();
        let off = mapping.offset as usize;
        let subheader = &bytes[off..off + 16];
        let declared = LazyDatabaseIndex::declared_object_length(subheader).unwrap();
        let footprint = align16(declared) as usize;
        let window = &bytes[off..off + footprint];
        let lazy_object = LazyDatabaseIndex::parse_object(window).unwrap();
        let eager_object = db.get_object(id).unwrap();
        assert!(objects_equal(&lazy_object, eager_object));
    }
}

#[test]
fn test_lazy_parse_errors() {
    let bad_header = b"CSBM\x00\x00\x00\x01\x00\x00\x00\x00\x00\x00\x00\x00\x00\x00\x00\x20\x00\x00\x00\x00\x00\x00\x00\x00\x00\x00\x00\x00";
    let err = LazyDatabaseIndex::parse(bad_header as &[u8], b"").unwrap_err();
    assert!(matches!(
        err,
        DatabaseParseError::InvalidHeader(HeaderDecodeError::InvalidMagic)
    ));

    let header = Header::new(2, vec![0u8; 12]).to_bytes();
    let err = LazyDatabaseIndex::parse(header.as_slice(), b"").unwrap_err();
    assert!(matches!(
        err,
        DatabaseParseError::InvalidObjectMap(ObjectMappingError::InvalidLength)
    ));
}

#[test]
fn test_malformed_inputs() {
    // Wrong magic.
    let wrong_magic = b"XXGM\x00\x00\x00\x01\x00\x00\x00\x00\x00\x00\x00\x00\x00\x00\x00\x20\x00\x00\x00\x00\x00\x00\x00\x00\x00\x00\x00\x00";
    let err = RawDatabaseFile::decode(wrong_magic as &[u8]).unwrap_err();
    assert!(matches!(
        err,
        DatabaseParseError::InvalidHeader(HeaderDecodeError::InvalidMagic)
    ));

    // Unsupported version.
    let version_2 = b"CSGM\x00\x00\x00\x02\x00\x00\x00\x00\x00\x00\x00\x00\x00\x00\x00\x20\x00\x00\x00\x00\x00\x00\x00\x00\x00\x00\x00\x00";
    let err = RawDatabaseFile::decode(version_2 as &[u8]).unwrap_err();
    assert!(matches!(err, DatabaseParseError::UnsupportedVersion(2)));

    // Truncated buffer.
    let truncated = b"CSGM\x00\x00\x00\x01\x00\x00";
    let err = RawDatabaseFile::decode(truncated as &[u8]).unwrap_err();
    assert!(matches!(
        err,
        DatabaseParseError::InvalidHeader(HeaderDecodeError::TooShort)
    ));

    // Header length not a multiple of 16.
    let bad_padding = b"CSGM\x00\x00\x00\x01\x00\x00\x00\x00\x00\x00\x00\x00\x00\x00\x00\x14\x00\x00\x00\x00";
    let err = RawDatabaseFile::decode(bad_padding as &[u8]).unwrap_err();
    assert!(matches!(
        err,
        DatabaseParseError::InvalidHeader(HeaderDecodeError::InvalidPadding)
    ));

    // A mapping offset that is not a multiple of 16.
    let mut unaligned = Header::new(1, vec![0u8; 12]).to_bytes();
    unaligned.extend_from_slice(b"\x00\x00\x00\x00\x00\x00\x00\x01");
    unaligned.extend_from_slice(b"\x00\x00\x00\x00\x00\x00\x00\x31");
    let err = RawDatabaseFile::decode(unaligned.as_slice()).unwrap_err();
    assert!(matches!(
        err,
        DatabaseParseError::InvalidObjectMap(ObjectMappingError::InvalidPadding)
    ));

    // A mapping offset at or past the end of the file.
    let mut out_of_range = Header::new(1, vec![0u8; 12]).to_bytes();
    out_of_range.extend_from_slice(b"\x00\x00\x00\x00\x00\x00\x00\x01");
    out_of_range.extend_from_slice(b"\x00\x00\x00\x00\x00\x00\x01\x00");
    let err = RawDatabaseFile::decode(out_of_range.as_slice()).unwrap_err();
    match err {
        DatabaseParseError::InvalidObjectOffset(mapping) => {
            assert_eq!(mapping.id, 1);
            assert_eq!(mapping.offset, 256);
        }
        other => panic!("unexpected error: {:?}", other),
    }
}

#[test]
fn test_missing_v1_extra_data() {
    // A structurally valid file whose header lacks the 16 bytes of
    // version-1 extra data parses as a raw file but not as a database.
    let header = Header::new(0, Vec::new());
    let bytes = header.to_bytes();
    assert!(RawDatabaseFile::decode(bytes.as_slice()).is_ok());
    let err = Database::from_bytes(bytes.as_slice()).unwrap_err();
    assert!(matches!(err, DatabaseParseError::HeaderParsingError(_)));
}

#[test]
fn test_duplicate_ids_last_write_wins() {
    // Two mappings with the same id: the later object supersedes the
    // earlier one in the materialized database.
    let mut obj_a = RawObject::new(0x0001, 0, 1, 4);
    obj_a.add_data(vec![1, 1, 1, 1]);
    obj_a.add_data(vec![1, 1, 1, 2]);
    obj_a.add_data(vec![1, 1, 1, 3]);
    let body_a = obj_a.to_bytes().unwrap();
    let mut obj_b = RawObject::new(0x0001, 0, 1, 4);
    obj_b.add_data(vec![2, 2, 2, 2]);
    obj_b.add_data(vec![2, 2, 2, 4]);
    obj_b.add_data(vec![2, 2, 2, 6]);
    let body_b = obj_b.to_bytes().unwrap();

    let mut extra = vec![0u8; 16];
    extra[7] = 9;
    let mut bytes = Header::new(2, extra).to_bytes();
    let base = (bytes.len() + 32) as u64;
    let mut map = simbiota_database::object_map::ObjectMap::new();
    map.mappings.push(simbiota_database::object_map::ObjectMapping::new(5, base));
    map.mappings.push(simbiota_database::object_map::ObjectMapping::new(
        5,
        base + body_a.len() as u64,
    ));
    bytes.extend_from_slice(map.to_bytes().as_slice());
    bytes.extend_from_slice(body_a.as_slice());
    bytes.extend_from_slice(body_b.as_slice());

    let db = Database::from_bytes(bytes.as_slice()).unwrap();
    let stored = db.get_object(5).unwrap();
    assert_eq!(stored.data[0], vec![2, 2, 2, 2]);
}

#[test]
fn test_compressed_object_decode() {
    // A zlib-compressed payload of three 4-byte entries.
    let payload: Vec<u8> = vec![1, 2, 3, 4, 5, 6, 7, 8, 9, 10, 11, 12];
    let mut encoder =
        flate2::write::ZlibEncoder::new(Vec::new(), flate2::Compression::default());
    std::io::Write::write_all(&mut encoder, payload.as_slice()).unwrap();
    let compressed = encoder.finish().unwrap();

    let mut bytes: Vec<u8> = Vec::new();
    bytes.extend_from_slice(&0x0001u16.to_be_bytes());
    bytes.extend_from_slice(&0x0001u16.to_be_bytes());
    bytes.extend_from_slice(&0x0000u16.to_be_bytes());
    bytes.extend_from_slice(&0x0004u16.to_be_bytes());
    let length = (16 + compressed.len()) as u64;
    bytes.extend_from_slice(&length.to_be_bytes());
    bytes.extend_from_slice(compressed.as_slice());
    while bytes.len() % 16 != 0 {
        bytes.push(0);
    }

    let decoded = RawObject::decode(bytes.as_slice()).unwrap();
    assert_eq!(decoded.compression, 1);
    assert_eq!(decoded.length, length);
    assert_eq!(
        decoded.data,
        vec![vec![1, 2, 3, 4], vec![5, 6, 7, 8], vec![9, 10, 11, 12]]
    );
}

#[test]
fn test_compression_errors() {
    // A compression code nobody defines.
    let mut unknown: Vec<u8> = Vec::new();
    unknown.extend_from_slice(&0x0001u16.to_be_bytes());
    unknown.extend_from_slice(&0x0005u16.to_be_bytes());
    unknown.extend_from_slice(&0x0000u16.to_be_bytes());
    unknown.extend_from_slice(&0x0004u16.to_be_bytes());
    unknown.extend_from_slice(&24u64.to_be_bytes());
    unknown.extend_from_slice(&[0u8; 16]);
    let err = RawObject::decode(unknown.as_slice()).unwrap_err();
    assert!(matches!(err, ObjectDecodeError::UnsupportedCompression(5)));

    // Bytes that are not a zlib stream.
    let mut corrupt: Vec<u8> = Vec::new();
    corrupt.extend_from_slice(&0x0001u16.to_be_bytes());
    corrupt.extend_from_slice(&0x0001u16.to_be_bytes());
    corrupt.extend_from_slice(&0x0000u16.to_be_bytes());
    corrupt.extend_from_slice(&0x0004u16.to_be_bytes());
    corrupt.extend_from_slice(&24u64.to_be_bytes());
    corrupt.extend_from_slice(&[0xffu8; 16]);
    let err = RawObject::decode(corrupt.as_slice()).unwrap_err();
    assert!(matches!(err, ObjectDecodeError::CompressionError));
}

#[test]
fn test_compression_type_codes() {
    assert_eq!(ObjectCompressionType::NoCompression.get_value(), 0);
    assert_eq!(ObjectCompressionType::DEFLATE.get_value(), 1);
    assert_eq!(
        ObjectCompressionType::from_value(0),
        ObjectCompressionType::NoCompression
    );
    assert_eq!(
        ObjectCompressionType::from_value(1),
        ObjectCompressionType::DEFLATE
    );
}

#[test]
fn test_is_encodable() {
    let mut db = Database::new(1);
    assert!(db.is_encodable());
    db.add_object(1, sample_object(1));
    assert!(db.is_encodable());
    // An object whose entry does not match its entry size cannot be
    // serialized.
    let mut bad = sample_object(2);
    bad.data.push(vec![1, 2]);
    db.add_object(2, bad);
    assert!(!db.is_encodable());
}

#[test]
fn test_compression_text() {
    assert_eq!(get_compression_text(0), "no compression");
    assert_eq!(get_compression_text(1), "DEFLATE (flate2)");
    assert_eq!(get_compression_text(7), "invalid/unknown");
}

#[test]
fn test_debug_parse_v1_headers() {
    // The inspection entry point decodes the header and map of a file
    // whose object bodies are damaged.
    let mut bytes = Header::new(1, vec![0u8; 12]).to_bytes();
    bytes.extend_from_slice(b"\x00\x00\x00\x00\x00\x00\x00\x08");
    bytes.extend_from_slice(b"\x00\x00\x00\x00\x00\x00\x00\x40");
    let (header, map) = RawDatabaseFile::debug_parse_v1_headers(bytes.as_slice()).unwrap();
    assert_eq!(header.number_of_objects, 1);
    assert_eq!(map.mappings[0].id, 8);
    assert_eq!(map.mappings[0].offset, 0x40);
    // The full parse fails: the mapped offset lies past the file end.
    assert!(RawDatabaseFile::decode(bytes.as_slice()).is_err());
}

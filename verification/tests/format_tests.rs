use simbiota_database::database::{get_object_name, ObjectCompressionType};
use simbiota_database::formats::colored_tlsh::ColoredTLSHObject;
use simbiota_database::formats::colored_tlsh_with_distance::ColoredTLSHWithDistanceObject;
use simbiota_database::formats::simple_tlsh::{
    decode_hex, encode_hex, SimpleTLSHEntryType, SimpleTLSHObject,
};
use simbiota_database::{Database, ObjectImpl};

const HASH_A: &str = "B911A8DACB5B5A06568B6ED299B18014C811DD897E95B720B871B1F5EF7300538187DC";
const HASH_B: &str = "0B22C01977023F8A74C2CA8D7C4D514C426A3CB17C966FA2A0D96D770E7882C417FE5B";

#[test]
fn test_decode_hex() {
    assert_eq!(decode_hex("00ff10").unwrap(), vec![0x00, 0xff, 0x10]);
    assert_eq!(decode_hex("DEADbeef").unwrap(), vec![0xde, 0xad, 0xbe, 0xef]);
    assert_eq!(decode_hex("").unwrap(), Vec::<u8>::new());
    assert!(decode_hex("abc").is_none());
    assert!(decode_hex("zz").is_none());
}

#[test]
fn test_encode_hex() {
    assert_eq!(encode_hex(&[0xde, 0xad, 0x01]), "dead01");
    assert_eq!(encode_hex(&[]), "");
    let bytes = vec![0x00, 0x7f, 0x80, 0xff];
    assert_eq!(decode_hex(&encode_hex(&bytes)).unwrap(), bytes);
}

#[test]
fn test_simple_tlsh_hex_mode() {
    let mut obj = SimpleTLSHObject::new(SimpleTLSHEntryType::Hex(String::new()));
    obj.add_hash(HASH_A.to_string());
    obj.add_hash(HASH_B.to_string());
    let hashes = obj.get_hashes();
    assert_eq!(hashes, vec![HASH_A.to_string(), HASH_B.to_string()]);

    let generic = obj.to_object();
    assert_eq!(generic.format, 0x0001);
    assert_eq!(generic.entry_type, 0);
    assert_eq!(generic.entry_size, 70);
    assert_eq!(generic.data.len(), 2);
    assert_eq!(generic.data[0], HASH_A.as_bytes().to_vec());

    let back = SimpleTLSHObject::from_object(generic).unwrap();
    assert_eq!(back.get_hashes(), vec![HASH_A.to_string(), HASH_B.to_string()]);
}

#[test]
fn test_simple_tlsh_raw_mode() {
    let mut obj = SimpleTLSHObject::new(SimpleTLSHEntryType::Raw(Vec::new()));
    obj.add_hash(HASH_A.to_string());
    let raw = decode_hex(HASH_A).unwrap();
    obj.add_raw_hash(raw.as_slice());
    let generic = obj.to_object();
    assert_eq!(generic.entry_type, 1);
    assert_eq!(generic.entry_size, 35);
    assert_eq!(generic.data[0], raw);
    assert_eq!(generic.data[1], raw);

    let back = SimpleTLSHObject::from_object(generic).unwrap();
    // Raw entries come back as lowercase hexadecimal strings.
    assert_eq!(back.get_hashes(), vec![HASH_A.to_lowercase(), HASH_A.to_lowercase()]);
}

#[test]
fn test_simple_tlsh_from_object_rejects() {
    let mut obj = SimpleTLSHObject::new(SimpleTLSHEntryType::Hex(String::new()));
    obj.add_hash(HASH_A.to_string());
    let mut wrong_format = obj.to_object();
    wrong_format.format = 0x0002;
    assert!(SimpleTLSHObject::from_object(wrong_format).is_none());

    let mut obj = SimpleTLSHObject::new(SimpleTLSHEntryType::Hex(String::new()));
    obj.add_hash(HASH_A.to_string());
    let mut wrong_size = obj.to_object();
    wrong_size.entry_size = 35;
    assert!(SimpleTLSHObject::from_object(wrong_size).is_none());
}

#[test]
fn test_simple_tlsh_database_round_trip() {
    let hashes = [
        "B911A8DACB5B5A06568B6ED299B18014C811DD897E95B720B871B1F5EF7300538187DC",
        "0B22C01977023F8A74C2CA8D7C4D514C426A3CB17C966FA2A0D96D770E7882C417FE5B",
        "79A31224C9D62CA19BDD6EAA5D43339038F85D8BF0932625D1D85A92EBBB3560FF41C0",
        "172533F8E717FDA43B4DD8F09E8A955912CB1DB6296DC0336E828B564C8260106FF16F",
        "3DB633814E9F2046252E5DD0E10FFBC4A54FEB96D02B4A158B33CE97B76888931937B7",
    ];
    let mut tlsh_object = SimpleTLSHObject::new(SimpleTLSHEntryType::Hex(String::new()));
    for hash in hashes {
        tlsh_object.add_hash(hash.to_string());
    }
    let mut database = Database::new(1);
    database.add_object(1, tlsh_object.to_object());
    let bytes = database.as_bytes();
    let reparsed = Database::from_bytes(bytes.as_slice()).expect("generated database invalid");
    let object = reparsed.get_object(1).expect("object not found");
    let tlsh_list = SimpleTLSHObject::from_object(object.clone()).expect("failed to parse object");
    let expected: Vec<String> = hashes.iter().map(|h| h.to_string()).collect();
    assert_eq!(tlsh_list.get_hashes(), expected);
}

#[test]
fn test_colored_tlsh() {
    let tlsh = [7u8; 36];
    let sha = [9u8; 32];
    let mut obj = ColoredTLSHObject::empty();
    obj.add_entry(&tlsh, &sha);
    assert_eq!(obj.get_entries().len(), 1);
    assert_eq!(obj.get_entries()[0].tlsh_bytes, tlsh.to_vec());
    assert_eq!(obj.get_entries()[0].sha256_hash, sha.to_vec());

    let generic = obj.to_object();
    assert_eq!(generic.format, 0x0002);
    assert_eq!(generic.entry_size, 68);
    assert_eq!(generic.data[0].len(), 68);

    let back = ColoredTLSHObject::from_object(generic).unwrap();
    assert_eq!(back.get_entries()[0].tlsh_bytes, tlsh.to_vec());
    assert_eq!(back.get_entries()[0].sha256_hash, sha.to_vec());

    let mut other = ColoredTLSHObject::empty();
    other.add_entry(&tlsh, &sha);
    let mut wrong = other.to_object();
    wrong.format = 0x0001;
    assert!(ColoredTLSHObject::from_object(wrong).is_none());
}

#[test]
fn test_colored_tlsh_with_distance() {
    let tlsh = [3u8; 36];
    let sha = [4u8; 32];
    let mut obj = ColoredTLSHWithDistanceObject::empty();
    obj.add_entry(&tlsh, &sha, 55);
    let generic = obj.to_object();
    assert_eq!(generic.format, 0x0003);
    assert_eq!(generic.entry_size, 69);
    assert_eq!(generic.data[0][68], 55);

    let back = ColoredTLSHWithDistanceObject::from_object(generic).unwrap();
    assert_eq!(back.get_entries()[0].tlsh_bytes, tlsh.to_vec());
    assert_eq!(back.get_entries()[0].sha256_hash, sha.to_vec());
    assert_eq!(back.get_entries()[0].distance, 55);
}

#[test]
fn test_format_names() {
    let simple = SimpleTLSHObject::new(SimpleTLSHEntryType::Hex(String::new()));
    assert_eq!(get_object_name(simple), "SimpleTLSH");
    assert_eq!(get_object_name(ColoredTLSHObject::empty()), "ColoredTLSH");
    assert_eq!(
        get_object_name(ColoredTLSHWithDistanceObject::empty()),
        "ColoredTLSHWithDistance"
    );
}

#[test]
fn test_compressed_flag_round_trip() {
    let mut obj = SimpleTLSHObject::new_compressed(SimpleTLSHEntryType::Hex(String::new()));
    obj.set_compressed(false);
    obj.add_hash(HASH_A.to_string());
    let generic = obj.to_object();
    // Compression is not implemented on the write path: the lowered
    // object is always stored uncompressed.
    assert!(matches!(
        generic.compression_type,
        ObjectCompressionType::NoCompression
    ));
}

use std::io::Write;

use flate2::write::ZlibEncoder;
use flate2::Compression;

use gitviz::git_parser::commit_parser::{author_defined, commit_defined, parse_author_info, timezone_defined};
use gitviz::git_parser::hex::{decode, decode_defined, encode_lower, encode_upper, hex_to_uint};
use gitviz::git_parser::object_reader::{
    index_defined, join_path, parse_ref_content, read_loose_object, unpack_defined, ObjectReader, PackFile,
    RefTarget,
};
use gitviz::git_parser::tree_parser::tree_defined;
use gitviz::models::git_object::{GitObjectType, GitVizError};

fn zlib(data: &[u8]) -> Vec<u8> {
    let mut e = ZlibEncoder::new(Vec::new(), Compression::default());
    e.write_all(data).unwrap();
    e.finish().unwrap()
}

#[test]
fn loose_object_is_inflated_and_read() {
    let compressed = zlib(b"blob 5\0hello");
    let obj = read_loose_object(&compressed, "abcd").unwrap();
    assert_eq!(obj.obj_type, GitObjectType::Blob);
    assert_eq!(obj.size, 5);
    assert_eq!(obj.content, b"hello".to_vec());
    assert_eq!(obj.hash, "abcd");
}

#[test]
fn loose_object_errors() {
    match read_loose_object(b"not zlib at all", "abcd") {
        Err(GitVizError::Decompression(_)) => {}
        other => panic!("unexpected {:?}", other),
    }
    match read_loose_object(&zlib(b"blob 5 hello"), "abcd") {
        Err(GitVizError::InvalidFormat(m)) => assert_eq!(m, "no null byte in object header"),
        other => panic!("unexpected {:?}", other),
    }
    match read_loose_object(&zlib(b"thing 5\0hello"), "abcd") {
        Err(GitVizError::InvalidFormat(m)) => assert_eq!(m, "unknown type: thing"),
        other => panic!("unexpected {:?}", other),
    }
    match read_loose_object(&zlib(b"blob x\0hello"), "abcd") {
        Err(GitVizError::InvalidFormat(m)) => assert_eq!(m, "invalid size: x"),
        other => panic!("unexpected {:?}", other),
    }
    match read_loose_object(&zlib(b"blob\0hello"), "abcd") {
        Err(GitVizError::InvalidFormat(m)) => assert_eq!(m, "missing object size"),
        other => panic!("unexpected {:?}", other),
    }
}

/// A pack index (version 2) holding one object with the given 20-byte name
/// at `offset` of its pack.
fn index_with(hash: &[u8; 20], offset: u32) -> Vec<u8> {
    let mut idx = Vec::new();
    idx.extend_from_slice(&0xFF744F63u32.to_be_bytes());
    idx.extend_from_slice(&2u32.to_be_bytes());
    for b in 0..256u32 {
        let n: u32 = if b >= hash[0] as u32 { 1 } else { 0 };
        idx.extend_from_slice(&n.to_be_bytes());
    }
    idx.extend_from_slice(hash);
    idx.extend_from_slice(&0u32.to_be_bytes());
    idx.extend_from_slice(&offset.to_be_bytes());
    idx
}

#[test]
fn packed_object_is_found_and_unpacked() {
    let hash: [u8; 20] = [
        0xab, 0xcd, 0xef, 0x01, 0x23, 0x45, 0x67, 0x89, 0xab, 0xcd, 0xef, 0x01, 0x23, 0x45, 0x67, 0x89, 0xab, 0xcd,
        0xef, 0x01,
    ];
    let hash_str = encode_lower(&hash);
    let mut pack = b"PACK\0\0\0\x02\0\0\0\x01".to_vec();
    let offset = pack.len() as u32;
    // A blob (type 3 in bits 4-6) of size 5 (the low four bits).
    pack.push(0x35);
    pack.extend_from_slice(&zlib(b"hello"));
    let idx = index_with(&hash, offset);
    let packs = vec![PackFile { idx: idx.clone(), pack: pack.clone() }];
    let reader = ObjectReader::new("/repo/.git");
    let key = hex_to_uint(&hash_str).unwrap();
    assert!(index_defined(&idx, key, &hash_str));
    assert_eq!(reader.find_in_index(&idx, key, &hash_str), Some(offset as u64));
    assert_eq!(reader.find_in_index(&idx, key, &hash_str.to_uppercase()), Some(offset as u64));
    assert!(unpack_defined(&pack, offset as u64, &hash_str));
    assert!(reader.read_object_defined(&hash_str, None, &packs));
    let obj = reader.read_object(&hash_str, None, &packs).unwrap();
    assert_eq!(obj.obj_type, GitObjectType::Blob);
    assert_eq!(obj.content, b"hello".to_vec());
    assert_eq!(obj.size, 5);

    let other = "00".repeat(20);
    match reader.read_object(&other, None, &packs) {
        Err(GitVizError::ObjectNotFound(h)) => assert_eq!(h, other),
        r => panic!("unexpected {:?}", r),
    }
}

#[test]
fn packed_size_spans_several_bytes() {
    // A commit of 300 bytes: 300 = 12 + (18 << 4), so the first byte holds
    // type 1 and 12 with its top bit set, and the next byte holds 18.
    let body = [b'c'; 300];
    let mut pack = vec![0x80 | 0x10 | 12, 18];
    pack.extend_from_slice(&zlib(&body));
    let reader = ObjectReader::new("/repo/.git");
    assert!(unpack_defined(&pack, 0, "ab"));
    let obj = reader.unpack_object(&pack, 0, "ab").unwrap();
    assert_eq!(obj.obj_type, GitObjectType::Commit);
    assert_eq!(obj.size, 300);
    assert_eq!(obj.content, body.to_vec());
    assert_eq!(obj.hash, "ab");
}

#[test]
fn lookup_uses_the_slot_of_the_first_name_byte() {
    let mut hash = [0u8; 20];
    hash[0] = 0x10;
    hash[19] = 0x07;
    let idx = index_with(&hash, 42);
    let reader = ObjectReader::new("/repo/.git");
    let hash_str = encode_lower(&hash);
    let key = hex_to_uint(&hash_str).unwrap();
    assert_eq!(reader.find_in_index(&idx, key, &hash_str), Some(42));
    // The same last eight bytes under a name of another first byte: its
    // slot is empty.
    let mut moved = hash;
    moved[0] = 0x11;
    assert_eq!(reader.find_in_index(&idx, key, &encode_lower(&moved)), None);
}

#[test]
fn unpack_errors() {
    let reader = ObjectReader::new("/repo/.git");
    match reader.unpack_object(b"PACK", 10, "ab") {
        Err(GitVizError::InvalidFormat(m)) => assert_eq!(m, "pack offset out of bounds"),
        r => panic!("unexpected {:?}", r),
    }
    match reader.unpack_object(&[0x70], 0, "ab") {
        Err(GitVizError::InvalidFormat(m)) => assert_eq!(m, "unknown pack object type: 7"),
        r => panic!("unexpected {:?}", r),
    }
    match reader.unpack_object(&[0x35, 1, 2, 3], 0, "ab") {
        Err(GitVizError::Decompression(_)) => {}
        r => panic!("unexpected {:?}", r),
    }
}

#[test]
fn short_index_is_undefined() {
    let mut idx = Vec::new();
    idx.extend_from_slice(&0xFF744F63u32.to_be_bytes());
    idx.extend_from_slice(&2u32.to_be_bytes());
    assert!(!index_defined(&idx, 0, "ab"));
    assert!(index_defined(&idx[..4], 0, "ab"));
}

#[test]
fn reader_paths() {
    let reader = ObjectReader::new("/repo/.git");
    assert_eq!(reader.objects_path(), "/repo/.git/objects");
    assert_eq!(reader.pack_path(), "/repo/.git/objects/pack");
    assert_eq!(reader.loose_path("abcdef").unwrap(), "/repo/.git/objects/ab/cdef");
    match reader.loose_path("abc") {
        Err(GitVizError::InvalidFormat(m)) => assert_eq!(m, "hash too short: abc"),
        r => panic!("unexpected {:?}", r),
    }
    assert_eq!(join_path("/a/", "b"), "/a/b");
    assert_eq!(join_path("/a", "/b"), "/b");
}

#[test]
fn ref_content_is_read() {
    match parse_ref_content("ref: refs/heads/main\n") {
        RefTarget::Symbolic(n) => assert_eq!(n, "refs/heads/main"),
        RefTarget::Direct(_) => panic!("expected a symbolic reference"),
    }
    match parse_ref_content("  0123abcd  \n") {
        RefTarget::Direct(h) => assert_eq!(h, "0123abcd"),
        RefTarget::Symbolic(_) => panic!("expected a hash"),
    }
}

#[test]
fn hex_errors() {
    assert_eq!(decode("abc").unwrap_err(), "hex string has odd length");
    assert_eq!(decode("zz").unwrap_err(), "invalid hex: invalid digit found in string");
    match hex_to_uint("g0") {
        Err(GitVizError::Parse(m)) => assert_eq!(m, "invalid hex: invalid digit found in string"),
        r => panic!("unexpected {:?}", r),
    }
    assert_eq!(hex_to_uint("0102030405060708090a").unwrap(), 0x030405060708090a);
    assert_eq!(encode_lower(&[0x0f, 0xa0]), "0fa0");
    assert!(decode_defined("abcd"));
    assert!(!decode_defined("aéb"));
    assert!(decode_defined("aé"));
    assert_eq!(decode("aé").unwrap_err(), "hex string has odd length");
    assert!(decode_defined("zzaéb"));
    assert_eq!(decode("zzaéb").unwrap_err(), "invalid hex: invalid digit found in string");
    match hex_to_uint("aé") {
        Err(GitVizError::Parse(m)) => assert_eq!(m, "hex string has odd length"),
        r => panic!("unexpected {:?}", r),
    }
}

#[test]
fn lowercase_hex_decodes_back() {
    let data = vec![0x00, 0x0f, 0x7a, 0xde, 0xad, 0xbe, 0xef, 0xff];
    assert_eq!(decode(&encode_lower(&data)).unwrap(), data);
    assert_eq!(decode(&encode_upper(&data).to_lowercase()).unwrap(), data);
    assert_eq!(encode_upper(&data).to_lowercase(), encode_lower(&data));
}

#[test]
fn where_reading_would_panic() {
    assert!(timezone_defined("+0800"));
    assert!(timezone_defined("+08"));
    assert!(!timezone_defined("+0é0"));
    assert!(timezone_defined("+é00"));
    assert!(author_defined("A <a@b.com> 1 +0000"));
    assert!(!author_defined("A >a< 1 +0000"));
    let bad = b"tree t\nauthor A >a< 1 +0000\ncommitter A <a@b.com> 1 +0000\n\nm";
    assert!(!commit_defined(bad, "h"));
    let good = b"tree t\nauthor A <a@b.com> 1 +0000\ncommitter A <a@b.com> 1 +0000\n\nm";
    assert!(commit_defined(good, "h"));
    let mut tree = b"100644 a\0".to_vec();
    tree.extend_from_slice(&[0u8; 19]);
    assert!(!tree_defined(&tree));
    tree.push(0);
    assert!(tree_defined(&tree));
}

#[test]
fn author_and_commit_errors() {
    match parse_author_info("nobody") {
        Err(GitVizError::InvalidFormat(m)) => assert_eq!(m, "cannot parse author info: nobody"),
        r => panic!("unexpected {:?}", r),
    }
    match parse_author_info("A <a@b.com> soon +0000") {
        Err(GitVizError::InvalidFormat(m)) => assert_eq!(m, "invalid timestamp: soon"),
        r => panic!("unexpected {:?}", r),
    }
    match parse_author_info("A a@b.com 1 +0000") {
        Err(GitVizError::InvalidFormat(m)) => assert_eq!(m, "cannot parse email: A a@b.com"),
        r => panic!("unexpected {:?}", r),
    }
    match parse_author_info("A <a@b.com> 99999999999999999 +0000") {
        Err(GitVizError::Parse(m)) => assert_eq!(m, "invalid timestamp: 99999999999999999"),
        r => panic!("unexpected {:?}", r),
    }
    let a = parse_author_info("  Jane Roe  <jane@x.org> 1700000000 -0130 ").unwrap();
    assert_eq!(a.name, "Jane Roe");
    assert_eq!(a.email, "jane@x.org");
    assert_eq!(a.timestamp, 1700000000);
    assert_eq!(a.timezone_offset, -90);
    match gitviz::git_parser::commit_parser::parse_commit(b"tree t\n\nno author", "h") {
        Err(GitVizError::InvalidFormat(m)) => assert_eq!(m, "missing author"),
        r => panic!("unexpected {:?}", r),
    }
    match gitviz::git_parser::commit_parser::parse_timezone("+0") {
        Err(GitVizError::InvalidFormat(m)) => assert_eq!(m, "invalid timezone: +0"),
        r => panic!("unexpected {:?}", r),
    }
}

#[test]
fn commit_text_is_decoded_lossily() {
    let content = b"tree t\nauthor A <a@b.com> 1 +0000\ncommitter A <a@b.com> 1 +0000\n\nbad \xff byte";
    let c = gitviz::git_parser::commit_parser::parse_commit(content, "h").unwrap();
    assert_eq!(c.message, "bad \u{fffd} byte");
}

#[test]
fn hash_text_errors_when_reading() {
    let reader = ObjectReader::new("/repo/.git");
    match reader.read_object("abc", None, &[]) {
        Err(GitVizError::InvalidFormat(m)) => assert_eq!(m, "hash too short: abc"),
        r => panic!("unexpected {:?}", r),
    }
    assert!(reader.read_object_defined("abcé", None, &[]));
    match reader.read_object("abcé", None, &[]) {
        Err(GitVizError::Parse(m)) => assert_eq!(m, "hex string has odd length"),
        r => panic!("unexpected {:?}", r),
    }
    assert!(reader.read_object_defined("abcdé", None, &[]));
    match reader.read_object("abcdé", None, &[]) {
        Err(GitVizError::Parse(m)) => assert_eq!(m, "invalid hex: invalid digit found in string"),
        r => panic!("unexpected {:?}", r),
    }
    match reader.read_object("abcd", None, &[]) {
        Err(GitVizError::ObjectNotFound(h)) => assert_eq!(h, "abcd"),
        r => panic!("unexpected {:?}", r),
    }
}

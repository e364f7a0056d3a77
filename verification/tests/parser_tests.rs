use gitviz::git_parser::commit_parser::{compute_commit_hash, parse_commit, parse_timezone, timestamp_accepted};
use gitviz::git_parser::hex::{decode, encode_upper, hex_to_uint};
use gitviz::git_parser::sha1::compute_sha1;
use gitviz::git_parser::tree_parser::{detect_language, parse_tree};
use gitviz::models::git_object::{GitObjectType, TreeEntryType};

#[test]
fn test_sha1_known_value() {
    let result = compute_sha1(b"abc");
    assert_eq!(result, "a9993e364706816aba3e25717850c26c9cd0d89d");
}

#[test]
fn test_parse_timezone() {
    assert_eq!(parse_timezone("+0800").unwrap(), 480);
    assert_eq!(parse_timezone("-0500").unwrap(), -300);
    assert_eq!(parse_timezone("+0000").unwrap(), 0);
}

#[test]
fn test_parse_commit_basic() {
    let content = b"tree abc123\nauthor John Doe <john@example.com> 1609459200 +0800\ncommitter John Doe <john@example.com> 1609459200 +0800\n\nInitial commit";
    let commit = parse_commit(content, "fake_hash").unwrap();
    assert_eq!(commit.hash, "fake_hash");
    assert_eq!(commit.author.name, "John Doe");
    assert_eq!(commit.author.email, "john@example.com");
    assert_eq!(commit.message, "Initial commit");
    assert!(commit.parent_hashes.is_empty());
}

#[test]
fn test_parse_commit_with_parents() {
    let content = b"tree abc123\nparent def456\nparent ghi789\nauthor A <a@b.com> 1609459200 +0800\ncommitter A <a@b.com> 1609459200 +0800\n\nMerge commit";
    let commit = parse_commit(content, "merge_hash").unwrap();
    assert_eq!(commit.parent_hashes.len(), 2);
    assert_eq!(commit.message, "Merge commit");
}

#[test]
fn test_compute_commit_hash() {
    let content = b"tree abc\nauthor A <a@a.com> 0 +0000\ncommitter A <a@a.com> 0 +0000\n\ntest";
    let hash = compute_commit_hash(content);
    assert_eq!(hash.len(), 40);
    assert!(hash.chars().all(|c| c.is_ascii_hexdigit()));
}

#[test]
fn test_hex_encode_decode() {
    let data = vec![0xDE, 0xAD, 0xBE, 0xEF];
    let encoded = encode_upper(&data);
    assert_eq!(encoded, "DEADBEEF");
    let decoded = decode(&encoded).unwrap();
    assert_eq!(decoded, data);
}

#[test]
fn test_git_object_type_from_str() {
    assert_eq!("commit".parse::<GitObjectType>().unwrap(), GitObjectType::Commit);
    assert_eq!("tree".parse::<GitObjectType>().unwrap(), GitObjectType::Tree);
    assert_eq!("blob".parse::<GitObjectType>().unwrap(), GitObjectType::Blob);
    assert!("unknown".parse::<GitObjectType>().is_err());
}

#[test]
fn test_hex_to_uint() {
    let val = hex_to_uint("FF").unwrap();
    assert_eq!(val, 255);
}

#[test]
fn test_parse_tree_single_entry() {
    let mut content = Vec::new();
    content.extend_from_slice(b"100644 README.md\0");
    let hash: [u8; 20] = [
        0xab, 0xcd, 0xef, 0x01, 0x23, 0x45, 0x67, 0x89, 0xab, 0xcd, 0xef, 0x01, 0x23, 0x45, 0x67, 0x89, 0xab, 0xcd,
        0xef, 0x01,
    ];
    content.extend_from_slice(&hash);

    let tree = parse_tree(&content, "fake_hash").unwrap();
    assert_eq!(tree.entries.len(), 1);
    assert_eq!(tree.entries[0].name, "README.md");
    assert_eq!(tree.entries[0].mode, "100644");
    assert_eq!(tree.entries[0].entry_type, TreeEntryType::Blob);
}

#[test]
fn test_parse_tree_with_directory() {
    let mut content = Vec::new();
    content.extend_from_slice(b"40000 src\0");
    let hash: [u8; 20] = [0u8; 20];
    content.extend_from_slice(&hash);

    let tree = parse_tree(&content, "fake_hash").unwrap();
    assert_eq!(tree.entries[0].entry_type, TreeEntryType::Tree);
}

#[test]
fn test_detect_language() {
    assert_eq!(detect_language("main.rs"), Some("Rust"));
    assert_eq!(detect_language("app.py"), Some("Python"));
    assert_eq!(detect_language("index.js"), Some("JavaScript"));
    assert_eq!(detect_language("Makefile"), None);
}

#[test]
fn type_names_read_back() {
    for t in [GitObjectType::Commit, GitObjectType::Tree, GitObjectType::Blob, GitObjectType::Tag] {
        assert_eq!(GitObjectType::from_name(t.as_str()), Ok(t));
        assert_eq!(t.to_string(), t.as_str());
    }
    assert_eq!(GitObjectType::from_name("Commit"), Err("unknown git object type: Commit".to_string()));
}

#[test]
fn hex_round_trip_and_error_messages() {
    let data = vec![0x00, 0x7f, 0x80, 0xff];
    assert_eq!(decode(&encode_upper(&data)).unwrap(), data);
    let e = gitviz::models::git_object::GitVizError::Parse("x".to_string());
    assert_eq!(e.message(), "parse error: x");
    let e = gitviz::models::git_object::GitVizError::NotAGitRepo("/p".to_string());
    assert_eq!(e.message(), "not a git repository: /p");
}

#[test]
fn tree_entries_read_back_in_order() {
    let written: Vec<(&str, &str, [u8; 20])> =
        vec![("100644", "a b.txt", [7u8; 20]), ("40000", "dir", [0xffu8; 20]), ("160000", "sub", [0x10u8; 20])];
    let mut content = Vec::new();
    for (mode, name, hash) in &written {
        content.extend_from_slice(mode.as_bytes());
        content.push(b' ');
        content.extend_from_slice(name.as_bytes());
        content.push(0);
        content.extend_from_slice(hash);
    }
    let tree = parse_tree(&content, "t").unwrap();
    assert_eq!(tree.hash, "t");
    assert_eq!(tree.entries.len(), 3);
    for (entry, (mode, name, hash)) in tree.entries.iter().zip(written.iter()) {
        assert_eq!(entry.mode, *mode);
        assert_eq!(entry.name, *name);
        assert_eq!(entry.hash, hash.iter().map(|b| format!("{:02x}", b)).collect::<String>());
    }
    assert_eq!(tree.entries[0].entry_type, TreeEntryType::Blob);
    assert_eq!(tree.entries[1].entry_type, TreeEntryType::Tree);
    assert_eq!(tree.entries[2].entry_type, TreeEntryType::Commit);
    assert!(parse_tree(&[], "e").unwrap().entries.is_empty());
}

#[test]
fn timestamps_are_accepted_within_the_date_range() {
    assert!(timestamp_accepted(0));
    assert!(timestamp_accepted(-8_334_601_228_800));
    assert!(!timestamp_accepted(-8_334_601_228_801));
    assert!(timestamp_accepted(8_210_266_876_799));
    assert!(!timestamp_accepted(8_210_266_876_800));
    assert!(!timestamp_accepted(i64::MIN));
    assert!(!timestamp_accepted(i64::MAX));
}

#[test]
fn language_depends_on_the_last_extension_only() {
    assert_eq!(detect_language("a.b.py"), Some("Python"));
    assert_eq!(detect_language("archive.tar.rs"), detect_language("rs"));
    assert_eq!(detect_language("rs"), Some("Rust"));
    assert_eq!(detect_language("MAIN.RS"), None);
    assert_eq!(detect_language("x.md.txt"), None);
    assert_eq!(detect_language("dir.go/file.c"), Some("C"));
}

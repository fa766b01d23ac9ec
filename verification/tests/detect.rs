use tree_magic_rs::magic::MagicRule;
use tree_magic_rs::tree_magic::{DatabaseIntegrityError, MimeDatabase, Subject};

fn rule(indent_level: u32, start_off: u32, val: &[u8]) -> MagicRule {
    MagicRule {
        indent_level,
        start_off,
        val_len: val.len() as u16,
        val: val.to_vec(),
        mask: None,
        word_len: 1,
        region_len: 1,
    }
}

fn pair(a: &str, b: &str) -> (String, String) {
    (a.to_string(), b.to_string())
}

fn sample() -> MimeDatabase {
    let rules = vec![
        ("image/jpeg".to_string(), vec![rule(0, 0, &[0xff, 0xd8, 0xff])]),
        ("image/gif".to_string(), vec![rule(0, 0, b"GIF89a"), rule(0, 0, b"GIF87a")]),
        ("application/zip".to_string(), vec![rule(0, 0, b"PK\x03\x04")]),
        ("application/epub+zip".to_string(), vec![rule(0, 30, b"mimetypeapplication/epub+zip")]),
        ("text/x-shellscript".to_string(), vec![rule(0, 0, b"#!/bin/sh")]),
    ];
    let aliases = vec![pair("image/jpg", "image/jpeg")];
    let subclasses = vec![pair("application/zip", "application/epub+zip")];
    MimeDatabase::new(rules, aliases, &subclasses).unwrap()
}

#[test]
fn jpeg_prefix_is_detected() {
    let db = sample();
    assert_eq!(db.from_u8(&[0xff, 0xd8, 0xff, 0xe0]), "image/jpeg");
}

#[test]
fn empty_buffer_is_plain_text() {
    let db = sample();
    assert_eq!(db.from_u8(&[]), "text/plain");
}

#[test]
fn printable_ascii_is_plain_text() {
    let db = sample();
    assert_eq!(db.from_u8(b"Hello, world. Nothing to see here."), "text/plain");
}

#[test]
fn text_subtype_is_more_specific_than_plain_text() {
    let db = sample();
    assert_eq!(db.from_u8(b"#!/bin/sh\necho hi\n"), "text/x-shellscript");
}

#[test]
fn binary_without_rule_is_octet_stream() {
    let db = sample();
    assert_eq!(db.from_u8(&[0x00, 0x01, 0x02, 0x03]), "application/octet-stream");
}

#[test]
fn gif_without_prefix_does_not_match() {
    let db = sample();
    assert!(!db.match_u8("image/gif", b"not a gif at all"));
    assert!(db.match_u8("image/gif", b"GIF89a......"));
    assert!(db.match_u8("image/gif", b"GIF87a......"));
}

#[test]
fn alias_is_resolved_once_before_matching() {
    let db = sample();
    assert!(db.match_u8("image/jpg", &[0xff, 0xd8, 0xff, 0xe0]));
    assert!(!db.match_u8_noalias("image/jpg", &[0xff, 0xd8, 0xff, 0xe0]));
    assert_eq!(db.get_alias("image/jpg"), "image/jpeg");
    assert_eq!(db.get_alias("image/jpeg"), "image/jpeg");
}

#[test]
fn aliases_are_not_chained() {
    let aliases = vec![pair("a/one", "a/two"), pair("a/two", "a/three")];
    let db = MimeDatabase::new(Vec::new(), aliases, &Vec::new()).unwrap();
    assert_eq!(db.get_alias("a/one"), "a/two");
    assert_eq!(db.get_alias("a/two"), "a/three");
    assert_eq!(db.get_alias("a/three"), "a/three");
}

#[test]
fn last_alias_entry_wins() {
    let aliases = vec![pair("a/one", "a/two"), pair("a/one", "a/three")];
    let db = MimeDatabase::new(Vec::new(), aliases, &Vec::new()).unwrap();
    assert_eq!(db.get_alias("a/one"), "a/three");
}

#[test]
fn subclass_is_preferred_over_its_parent() {
    let db = sample();
    let mut epub = b"PK\x03\x04".to_vec();
    epub.resize(30, 0);
    epub.extend_from_slice(b"mimetypeapplication/epub+zip");
    assert_eq!(db.from_u8(&epub), "application/epub+zip");
    assert_eq!(db.from_u8(b"PK\x03\x04 and so on"), "application/zip");
}

#[test]
fn detected_type_is_a_supported_type() {
    let db = sample();
    let types = db.supported_types();
    let inputs: Vec<&[u8]> = vec![b"", b"abc", &[0, 1, 2], &[0xff, 0xd8, 0xff], b"GIF89a", b"PK\x03\x04"];
    for input in inputs {
        let found = db.from_u8(input);
        assert!(!found.is_empty());
        assert!(types.iter().any(|t| t == found));
    }
}

#[test]
fn detection_is_repeatable() {
    let db = sample();
    let first = db.from_u8(b"GIF89a and more").to_string();
    for _ in 0..5 {
        assert_eq!(db.from_u8(b"GIF89a and more"), first);
    }
    assert_eq!(first, "image/gif");
}

#[test]
fn supported_types_are_sorted_with_builtins() {
    let db = sample();
    let types = db.supported_types();
    let expected = vec![
        "all/all",
        "all/allfiles",
        "application/epub+zip",
        "application/octet-stream",
        "application/zip",
        "image/gif",
        "image/jpeg",
        "inode/directory",
        "text/plain",
        "text/x-shellscript",
    ];
    assert_eq!(types, expected);
}

#[test]
fn root_is_all_all() {
    let db = sample();
    assert_eq!(db.node("all/all"), Some(db.root_node()));
    assert_eq!(db.node("no/such"), None);
}

#[test]
fn directory_is_found_by_what_it_is() {
    let db = sample();
    assert_eq!(db.from_node(db.root_node(), &Subject::Directory), Some("inode/directory"));
    assert_eq!(db.from_node(db.root_node(), &Subject::Other), None);
}

#[test]
fn parent_given_to_the_root_is_refused() {
    let subclasses = vec![pair("text/plain", "all/all")];
    let made = MimeDatabase::new(Vec::new(), Vec::new(), &subclasses);
    assert!(matches!(made, Err(DatabaseIntegrityError::NoUniqueRoot)));
}

#[test]
fn circle_below_the_root_is_refused() {
    let rules = vec![
        ("a/one".to_string(), Vec::new()),
        ("a/two".to_string(), Vec::new()),
    ];
    let subclasses = vec![pair("a/one", "a/two"), pair("a/two", "a/one")];
    let made = MimeDatabase::new(rules, Vec::new(), &subclasses);
    assert!(matches!(made, Err(DatabaseIntegrityError::Cyclic)));
}

#[test]
fn unknown_edge_endpoints_are_dropped() {
    let subclasses = vec![pair("no/such", "text/plain"), pair("text/plain", "no/other")];
    let db = MimeDatabase::new(Vec::new(), Vec::new(), &subclasses).unwrap();
    assert_eq!(db.supported_types().len(), 5);
    assert_eq!(db.from_u8(b"plain"), "text/plain");
}

#[test]
fn empty_buffer_goes_below_plain_text_only_by_an_empty_literal() {
    let rules = vec![
        ("text/x-shellscript".to_string(), vec![rule(0, 0, b"#!/bin/sh")]),
        ("text/x-anything".to_string(), vec![rule(0, 0, b"")]),
    ];
    let db = MimeDatabase::new(rules, Vec::new(), &Vec::new()).unwrap();
    assert_eq!(db.from_u8(&[]), "text/x-anything");
    let rules = vec![("text/x-shellscript".to_string(), vec![rule(0, 0, b"#!/bin/sh")])];
    let db = MimeDatabase::new(rules, Vec::new(), &Vec::new()).unwrap();
    assert_eq!(db.from_u8(&[]), "text/plain");
}

#[test]
fn nested_rules_in_a_database() {
    let rules = vec![(
        "image/x-nested".to_string(),
        vec![rule(0, 0, b"PNG"), rule(1, 0, b"GIF8")],
    )];
    let db = MimeDatabase::new(rules, Vec::new(), &Vec::new()).unwrap();
    assert!(!db.match_u8("image/x-nested", b"GIF89a"));
    assert_eq!(db.from_u8(b"GIF89a"), "text/plain");
}

//! Tests for the header-map format.

use std::collections::HashSet;

use xcbuild::hmap::{hash_hmap_key, HMapError, HeaderMap};

#[test]
fn test_roundtrip() {
    let mut hmap = HeaderMap::new();
    assert!(hmap.add("Foo.h", "/usr/include/", "Foo.h"));
    assert!(hmap.add("Bar.h", "/usr/local/include/", "Bar.h"));
    assert!(!hmap.add("Foo.h", "/other/", "Foo.h")); // duplicate

    let data = hmap.write();
    let hmap2 = HeaderMap::read(&data).unwrap();

    let entries = hmap2.entries();
    assert_eq!(entries.len(), 2);

    let mut found = HashSet::new();
    for e in &entries {
        found.insert(e.key.to_string());
    }
    assert!(found.contains("Foo.h"));
    assert!(found.contains("Bar.h"));
}

#[test]
fn test_hash() {
    assert_eq!(hash_hmap_key("Foo.h"), hash_hmap_key("foo.h"));
}

#[test]
fn test_duplicate_is_case_insensitive() {
    let mut hmap = HeaderMap::new();
    assert!(hmap.add("Foo.h", "/usr/include/", "Foo.h"));
    assert!(!hmap.add("FOO.H", "/elsewhere/", "FOO.H"));
}

#[test]
fn test_empty_arguments_rejected() {
    let mut hmap = HeaderMap::new();
    assert!(!hmap.add("", "/usr/include/", "Foo.h"));
    assert!(!hmap.add("Foo.h", "", "Foo.h"));
    assert!(!hmap.add("Foo.h", "/usr/include/", ""));
    assert_eq!(hmap.entries().len(), 0);
}

#[test]
fn test_read_errors() {
    match HeaderMap::read(&[0u8; 10]) {
        Err(HMapError::FileTooSmall) => {}
        other => panic!("expected FileTooSmall, got {:?}", other),
    }
    match HeaderMap::read(&[0u8; 24]) {
        Err(HMapError::InvalidMagic) => {}
        other => panic!("expected InvalidMagic, got {:?}", other),
    }

    // Valid magic, wrong version.
    let mut data = vec![0u8; 24];
    data[0..4].copy_from_slice(b"hmap");
    data[4..6].copy_from_slice(&9u16.to_be_bytes());
    match HeaderMap::read(&data) {
        Err(HMapError::InvalidVersion(9)) => {}
        other => panic!("expected InvalidVersion(9), got {:?}", other),
    }
}

#[test]
fn test_write_then_prefix_suffix_survive() {
    let mut hmap = HeaderMap::new();
    assert!(hmap.add("Foo.h", "/usr/include/", "Foo.h"));
    let data = hmap.write();
    let hmap2 = HeaderMap::read(&data).unwrap();
    let entries = hmap2.entries();
    assert_eq!(entries.len(), 1);
    assert_eq!(entries[0].key, "Foo.h");
    assert_eq!(entries[0].prefix, "/usr/include/");
    assert_eq!(entries[0].suffix, "Foo.h");
}

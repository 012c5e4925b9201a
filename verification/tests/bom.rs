//! Tests for the BOM reader, writer, and path records.

use xcbuild::bom::{Bom, BomError};
use xcbuild::paths::{resolve_path, FileKey, PathInfo1, PathInfo2, PathType};
use xcbuild::writer::BomWriter;

use std::collections::HashMap;

#[test]
fn test_invalid_magic() {
    let data = vec![0u8; 64];
    assert!(Bom::load(data).is_err());
}

#[test]
fn test_too_small() {
    let data = vec![0u8; 4];
    assert!(Bom::load(data).is_err());
}

#[test]
fn test_bom_writer_roundtrip() {
    let mut writer = BomWriter::new();

    // Create a simple tree with one entry
    let key = FileKey {
        parent: 0,
        name: "test.txt".to_string(),
    };
    let info1 = PathInfo1 { id: 1, index: 0 };
    let info2 = PathInfo2 {
        path_type: 1,
        architecture: 0,
        mode: 0o100644,
        user: 501,
        group: 20,
        modtime: 0,
        size: 100,
        checksum: 0,
        link_name: String::new(),
    };

    let info2_idx = writer.add_block(info2.to_bytes());
    let info1_with_index = PathInfo1 {
        id: info1.id,
        index: info2_idx,
    };

    let entries = vec![(key.to_bytes(), info1_with_index.to_bytes())];
    let tree_idx = writer.build_tree(&entries);
    writer.add_variable("Paths", tree_idx);

    let data = writer.serialize();
    let bom = Bom::load(data).expect("should load written BOM");

    let read_entries = bom.tree_entries("Paths").expect("should read Paths tree");
    assert_eq!(read_entries.len(), 1);
}

#[test]
fn test_too_small_error_is_file_too_small() {
    for len in 0..32 {
        let data = vec![0u8; len];
        match Bom::load(data) {
            Err(BomError::FileTooSmall) => {}
            other => panic!("expected FileTooSmall, got {:?}", other),
        }
    }
}

#[test]
fn test_wrong_magic_right_length() {
    let mut data = vec![0u8; 64];
    data[..8].copy_from_slice(b"NotABom!");
    match Bom::load(data) {
        Err(BomError::InvalidMagic) => {}
        other => panic!("expected InvalidMagic, got {:?}", other),
    }
}

#[test]
fn test_wrong_version() {
    let mut data = vec![0u8; 64];
    data[..8].copy_from_slice(b"BOMStore");
    data[8..12].copy_from_slice(&2u32.to_be_bytes());
    match Bom::load(data) {
        Err(BomError::InvalidVersion(2)) => {}
        other => panic!("expected InvalidVersion(2), got {:?}", other),
    }
}

#[test]
fn test_index_get_never_overruns() {
    // A writer-produced archive plus probing of arbitrary block numbers.
    let mut writer = BomWriter::new();
    let b1 = writer.add_block(vec![1, 2, 3]);
    let b2 = writer.add_block(vec![4, 5]);
    writer.add_variable("a", b1);
    writer.add_variable("b", b2);
    let data = writer.serialize();
    let total = data.len();
    let bom = Bom::load(data).expect("load");
    for i in 0..100u32 {
        if let Some(block) = bom.index_get(i) {
            assert!(block.len() <= total);
        }
    }
    assert_eq!(bom.index_get(b1).unwrap(), &[1, 2, 3]);
    assert_eq!(bom.index_get(b2).unwrap(), &[4, 5]);
    assert!(bom.index_get(1000).is_none());
}

#[test]
fn test_empty_tree_roundtrip() {
    let mut writer = BomWriter::new();
    let entries: Vec<(Vec<u8>, Vec<u8>)> = Vec::new();
    let tree_idx = writer.build_tree(&entries);
    writer.add_variable("Paths", tree_idx);
    let data = writer.serialize();
    let bom = Bom::load(data).expect("load");
    let read_entries = bom.tree_entries("Paths").expect("read");
    assert_eq!(read_entries.len(), 0);
}

#[test]
fn test_roundtrip_preserves_order() {
    let mut writer = BomWriter::new();
    let entries: Vec<(Vec<u8>, Vec<u8>)> = (0..10u32)
        .map(|i| {
            (
                format!("key{}", 9 - i).into_bytes(),
                format!("value{}", i).into_bytes(),
            )
        })
        .collect();
    let tree_idx = writer.build_tree(&entries);
    writer.add_variable("Paths", tree_idx);
    let data = writer.serialize();
    let bom = Bom::load(data).expect("load");
    let read_entries = bom.tree_entries("Paths").expect("read");
    assert_eq!(read_entries.len(), 10);
    for (i, e) in read_entries.iter().enumerate() {
        assert_eq!(e.key, entries[i].0);
        assert_eq!(e.value, entries[i].1);
    }
}

#[test]
fn test_leaf_chaining_300_entries() {
    // 300 entries must produce exactly 2 leaves: the first leaf's forward
    // pointer names the second leaf, whose forward pointer is 0.
    let mut writer = BomWriter::new();
    let entries: Vec<(Vec<u8>, Vec<u8>)> = (0..300u32)
        .map(|i| (i.to_be_bytes().to_vec(), (i * 2).to_be_bytes().to_vec()))
        .collect();
    let tree_idx = writer.build_tree(&entries);
    writer.add_variable("Paths", tree_idx);
    let data = writer.serialize();
    let bom = Bom::load(data).expect("load");

    // The writer starts with the reserved block 0, so the first chunk's
    // 512 key/value blocks occupy 1..513, the first leaf is block 513,
    // the second chunk's 88 blocks occupy 514..602, the second leaf is
    // block 602, and the tree header is block 603.
    assert_eq!(tree_idx, 603);
    let tree_data = bom.index_get(tree_idx).expect("tree header block");
    assert_eq!(&tree_data[0..4], b"tree");
    let child = u32::from_be_bytes(tree_data[8..12].try_into().unwrap());
    assert_eq!(child, 513);

    let leaf0 = bom.index_get(513).expect("first leaf");
    assert_eq!(u16::from_be_bytes(leaf0[0..2].try_into().unwrap()), 1);
    assert_eq!(u16::from_be_bytes(leaf0[2..4].try_into().unwrap()), 256);
    let forward0 = u32::from_be_bytes(leaf0[4..8].try_into().unwrap());
    assert_eq!(forward0, 602);

    let leaf1 = bom.index_get(602).expect("second leaf");
    assert_eq!(u16::from_be_bytes(leaf1[0..2].try_into().unwrap()), 1);
    assert_eq!(u16::from_be_bytes(leaf1[2..4].try_into().unwrap()), 44);
    let forward1 = u32::from_be_bytes(leaf1[4..8].try_into().unwrap());
    assert_eq!(forward1, 0);

    let read_entries = bom.tree_entries("Paths").expect("read");
    assert_eq!(read_entries.len(), 300);
    for (i, e) in read_entries.iter().enumerate() {
        assert_eq!(e.key, entries[i].0, "entry {} dropped or reordered", i);
        assert_eq!(e.value, entries[i].1);
    }
}

#[test]
fn test_variable_get() {
    let mut writer = BomWriter::new();
    let idx = writer.add_block(vec![1, 2, 3]);
    let data = writer.serialize();
    let bom = Bom::load(data).expect("load");
    assert_eq!(bom.variable_get("Paths"), None);

    let mut writer = BomWriter::new();
    let idx2 = writer.add_block(vec![9]);
    writer.add_variable("Paths", idx2);
    let data = writer.serialize();
    let bom = Bom::load(data).expect("load");
    assert_eq!(bom.variable_get("Paths"), Some(idx2));
    assert_eq!(bom.variable_get("Other"), None);
    let _ = idx;
}

#[test]
fn test_variables_listing() {
    let mut writer = BomWriter::new();
    let b1 = writer.add_block(vec![1]);
    let b2 = writer.add_block(vec![2]);
    writer.add_variable("BomInfo", b1);
    writer.add_variable("Paths", b2);
    let data = writer.serialize();
    let bom = Bom::load(data).expect("load");
    let vars = bom.variables();
    assert_eq!(vars.len(), 2);
    assert_eq!(vars[0].name, "BomInfo");
    assert_eq!(vars[0].index, b1);
    assert_eq!(vars[1].name, "Paths");
    assert_eq!(vars[1].index, b2);
}

#[test]
fn test_tree_not_found() {
    let mut writer = BomWriter::new();
    let data = writer.serialize();
    let bom = Bom::load(data).expect("load");
    match bom.tree_entries("Paths") {
        Err(BomError::TreeNotFound(name)) => assert_eq!(name, "Paths"),
        other => panic!("expected TreeNotFound, got {:?}", other),
    }
}

#[test]
fn test_tree_bad_magic() {
    let mut writer = BomWriter::new();
    let idx = writer.add_block(vec![0u8; 32]);
    writer.add_variable("Paths", idx);
    let data = writer.serialize();
    let bom = Bom::load(data).expect("load");
    match bom.tree_entries("Paths") {
        Err(BomError::InvalidTreeMagic) => {}
        other => panic!("expected InvalidTreeMagic, got {:?}", other),
    }
}

#[test]
fn test_is_tree() {
    let mut writer = BomWriter::new();
    let plain = writer.add_block(vec![0u8; 32]);
    let entries: Vec<(Vec<u8>, Vec<u8>)> = Vec::new();
    let tree_idx = writer.build_tree(&entries);
    writer.add_variable("Paths", tree_idx);
    let data = writer.serialize();
    let bom = Bom::load(data).expect("load");
    assert!(bom.is_tree(tree_idx));
    assert!(!bom.is_tree(plain));
}

#[test]
fn test_resolve_path() {
    let mut files: HashMap<u32, (u32, String)> = HashMap::new();
    files.insert(5, (0, "usr".to_string()));
    files.insert(6, (5, "bin".to_string()));
    let key = FileKey {
        parent: 6,
        name: "ls".to_string(),
    };
    assert_eq!(resolve_path(&key, &files).unwrap(), "usr/bin/ls");
}

#[test]
fn test_resolve_path_no_parents() {
    let files: HashMap<u32, (u32, String)> = HashMap::new();
    let key = FileKey {
        parent: 1,
        name: "alone".to_string(),
    };
    assert_eq!(resolve_path(&key, &files).unwrap(), "alone");
}

#[test]
fn test_resolve_path_cyclic_fails() {
    let mut files: HashMap<u32, (u32, String)> = HashMap::new();
    files.insert(1, (2, "a".to_string()));
    files.insert(2, (1, "b".to_string()));
    let key = FileKey {
        parent: 1,
        name: "leaf".to_string(),
    };
    // A corrupt, cyclic parent map fails instead of looping forever.
    match resolve_path(&key, &files) {
        Err(BomError::CorruptTree) => {}
        other => panic!("expected CorruptTree, got {:?}", other),
    }
}

#[test]
fn test_path_type_mapping() {
    for (code, expected) in [
        (1u8, PathType::File),
        (2, PathType::Directory),
        (3, PathType::Link),
        (4, PathType::Device),
        (9, PathType::File),
    ] {
        let info = PathInfo2 {
            path_type: code,
            architecture: 0,
            mode: 0,
            user: 0,
            group: 0,
            modtime: 0,
            size: 0,
            checksum: 0,
            link_name: String::new(),
        };
        assert_eq!(info.path_type(), expected, "code {}", code);
    }
}

#[test]
fn test_path_info1_roundtrip() {
    let info = PathInfo1 { id: 7, index: 42 };
    let bytes = info.to_bytes();
    assert_eq!(bytes.len(), 8);
    let back = PathInfo1::from_bytes(&bytes).expect("decode");
    assert_eq!(back.id, 7);
    assert_eq!(back.index, 42);
    assert!(PathInfo1::from_bytes(&bytes[..7]).is_none());
}

#[test]
fn test_path_info2_roundtrip() {
    let info = PathInfo2 {
        path_type: 3,
        architecture: 7,
        mode: 0o120755,
        user: 501,
        group: 20,
        modtime: 1234567,
        size: 11,
        checksum: 0xdeadbeef,
        link_name: "target".to_string(),
    };
    let bytes = info.to_bytes();
    let back = PathInfo2::from_bytes(&bytes).expect("decode");
    assert_eq!(back.path_type, 3);
    assert_eq!(back.architecture, 7);
    assert_eq!(back.mode, 0o120755);
    assert_eq!(back.user, 501);
    assert_eq!(back.group, 20);
    assert_eq!(back.modtime, 1234567);
    assert_eq!(back.size, 11);
    assert_eq!(back.checksum, 0xdeadbeef);
    assert_eq!(back.link_name, "target");
    assert_eq!(back.path_type(), PathType::Link);
}

#[test]
fn test_path_info2_short_buffer() {
    assert!(PathInfo2::from_bytes(&[0u8; 21]).is_none());
    let short = PathInfo2::from_bytes(&[0u8; 22]).expect("22 bytes suffice");
    assert_eq!(short.checksum, 0);
    assert_eq!(short.link_name, "");
}

#[test]
fn test_file_key_roundtrip() {
    let key = FileKey {
        parent: 12,
        name: "hello.txt".to_string(),
    };
    let bytes = key.to_bytes();
    let back = FileKey::from_bytes(&bytes).expect("decode");
    assert_eq!(back.parent, 12);
    assert_eq!(back.name, "hello.txt");
    assert!(FileKey::from_bytes(&bytes[..4]).is_none());
}

#[test]
fn test_block_count_and_indices() {
    let mut writer = BomWriter::new();
    writer.add_block(vec![1, 2]);
    writer.add_block(vec![3]);
    let data = writer.serialize();
    let bom = Bom::load(data).expect("load");
    assert_eq!(bom.block_count(), 3);
    let indices = bom.indices();
    assert_eq!(indices.len(), 3);
    // Block 0 is the reserved empty block right after the header.
    assert_eq!(indices[0].1.address, 32);
    assert_eq!(indices[0].1.length, 0);
    assert_eq!(indices[1].1.address, 32);
    assert_eq!(indices[1].1.length, 2);
    assert_eq!(indices[2].1.address, 34);
    assert_eq!(indices[2].1.length, 1);
}

#[test]
fn test_tree_leaf_count_overrun() {
    // A leaf that declares more entries than its bytes hold is corrupt.
    let mut writer = BomWriter::new();
    let mut leaf = Vec::new();
    leaf.extend_from_slice(&1u16.to_be_bytes()); // is_leaf
    leaf.extend_from_slice(&4u16.to_be_bytes()); // count: 4 entries declared
    leaf.extend_from_slice(&0u32.to_be_bytes()); // forward
    leaf.extend_from_slice(&0u32.to_be_bytes()); // backward
    // ... but no entry records follow.
    let leaf_idx = writer.add_block(leaf);

    let mut tree = Vec::new();
    tree.extend_from_slice(b"tree");
    tree.extend_from_slice(&1u32.to_be_bytes());
    tree.extend_from_slice(&leaf_idx.to_be_bytes());
    tree.extend_from_slice(&4096u32.to_be_bytes());
    tree.extend_from_slice(&4u32.to_be_bytes());
    tree.push(0);
    let tree_idx = writer.add_block(tree);
    writer.add_variable("Paths", tree_idx);

    let bom = Bom::load(writer.serialize()).expect("load");
    match bom.tree_entries("Paths") {
        Err(BomError::DataOutOfBounds) => {}
        other => panic!("expected DataOutOfBounds, got {:?}", other),
    }
}

#[test]
fn test_tree_dangling_entry_index() {
    // A leaf entry naming a block number with no index entry is corrupt.
    let mut writer = BomWriter::new();
    let mut leaf = Vec::new();
    leaf.extend_from_slice(&1u16.to_be_bytes()); // is_leaf
    leaf.extend_from_slice(&1u16.to_be_bytes()); // one entry
    leaf.extend_from_slice(&0u32.to_be_bytes()); // forward
    leaf.extend_from_slice(&0u32.to_be_bytes()); // backward
    leaf.extend_from_slice(&900u32.to_be_bytes()); // value index: dangling
    leaf.extend_from_slice(&901u32.to_be_bytes()); // key index: dangling
    let leaf_idx = writer.add_block(leaf);

    let mut tree = Vec::new();
    tree.extend_from_slice(b"tree");
    tree.extend_from_slice(&1u32.to_be_bytes());
    tree.extend_from_slice(&leaf_idx.to_be_bytes());
    tree.extend_from_slice(&4096u32.to_be_bytes());
    tree.extend_from_slice(&1u32.to_be_bytes());
    tree.push(0);
    let tree_idx = writer.add_block(tree);
    writer.add_variable("Paths", tree_idx);

    let bom = Bom::load(writer.serialize()).expect("load");
    match bom.tree_entries("Paths") {
        Err(BomError::IndexOutOfRange(901)) => {}
        other => panic!("expected IndexOutOfRange(901), got {:?}", other),
    }
}

#[test]
fn test_variable_get_matches_decoded_name() {
    // A handcrafted archive whose one variable name is not valid UTF-8:
    // lookup goes by the decoded (replacement-character) name.
    let mut data = Vec::new();
    data.extend_from_slice(b"BOMStore");
    data.extend_from_slice(&1u32.to_be_bytes()); // version
    data.extend_from_slice(&0u32.to_be_bytes()); // block count
    data.extend_from_slice(&32u32.to_be_bytes()); // index offset
    data.extend_from_slice(&4u32.to_be_bytes()); // index length
    data.extend_from_slice(&36u32.to_be_bytes()); // variables offset
    data.extend_from_slice(&0u32.to_be_bytes()); // trailer
    data.extend_from_slice(&0u32.to_be_bytes()); // index count
    data.extend_from_slice(&1u32.to_be_bytes()); // one variable
    data.extend_from_slice(&7u32.to_be_bytes()); // its block number
    data.push(2); // name length
    data.extend_from_slice(&[0xff, 0x46]); // invalid UTF-8, then 'F'

    let bom = Bom::load(data).expect("load");
    let vars = bom.variables();
    assert_eq!(vars.len(), 1);
    assert_eq!(vars[0].name, "\u{fffd}F");
    assert_eq!(bom.variable_get("\u{fffd}F"), Some(7));
    assert_eq!(bom.variable_get("F"), None);
}

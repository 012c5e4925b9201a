//! Tests for the CAR reader, over an archive built with the BOM writer.

use xcbuild::car::{attribute_name, AttributeList, CarReader, ATTR_IDENTIFIER, ATTR_SCALE};
use xcbuild::writer::BomWriter;

#[test]
fn test_attribute_name() {
    assert_eq!(attribute_name(1), "element");
    assert_eq!(attribute_name(12), "scale");
    assert_eq!(attribute_name(17), "identifier");
    assert_eq!(attribute_name(99), "unknown");
}

#[test]
fn test_attribute_list() {
    let list = AttributeList::from_pairs(&[(ATTR_IDENTIFIER, 5), (ATTR_SCALE, 2)]);
    assert_eq!(list.get(ATTR_IDENTIFIER), Some(5));
    assert_eq!(list.get(ATTR_SCALE), Some(2));
    assert_eq!(list.get(3), None);

    let from_keys = AttributeList::from_key_format(&[17, 12], &[5, 2]);
    assert_eq!(from_keys.get(ATTR_IDENTIFIER), Some(5));
    assert_eq!(from_keys.get(ATTR_SCALE), Some(2));
}

fn car_header_block() -> Vec<u8> {
    let mut hd = vec![0u8; 436];
    hd[0..4].copy_from_slice(b"RATC");
    hd[4..8].copy_from_slice(&1u32.to_le_bytes()); // ui_version
    hd[8..12].copy_from_slice(&12u32.to_le_bytes()); // storage_version
    hd[16..20].copy_from_slice(&1u32.to_le_bytes()); // rendition_count
    hd[20..28].copy_from_slice(b"testtool");
    hd[148..152].copy_from_slice(b"none");
    hd
}

fn key_format_block() -> Vec<u8> {
    let mut kf = Vec::new();
    kf.extend_from_slice(b"tmfk");
    kf.extend_from_slice(&0u32.to_le_bytes());
    kf.extend_from_slice(&2u32.to_le_bytes()); // two identifiers
    kf.extend_from_slice(&17u32.to_le_bytes()); // identifier
    kf.extend_from_slice(&12u32.to_le_bytes()); // scale
    kf
}

fn facet_value(identifier: u16) -> Vec<u8> {
    let mut v = Vec::new();
    v.extend_from_slice(&0u32.to_le_bytes()); // hotspot
    v.extend_from_slice(&1u16.to_le_bytes()); // one pair
    v.extend_from_slice(&ATTR_IDENTIFIER.to_le_bytes());
    v.extend_from_slice(&identifier.to_le_bytes());
    v
}

fn rendition_key(identifier: u16, scale: u16) -> Vec<u8> {
    let mut k = Vec::new();
    k.extend_from_slice(&identifier.to_le_bytes());
    k.extend_from_slice(&scale.to_le_bytes());
    k
}

fn rendition_value(name: &str, width: u32, height: u32) -> Vec<u8> {
    let mut v = vec![0u8; 184];
    v[0..4].copy_from_slice(b"CTSI");
    v[12..16].copy_from_slice(&width.to_le_bytes());
    v[16..20].copy_from_slice(&height.to_le_bytes());
    v[20..24].copy_from_slice(&200u32.to_le_bytes()); // scale factor
    v[24..28].copy_from_slice(b"ARGB");
    v[36..38].copy_from_slice(&10u16.to_le_bytes()); // layout
    v[40..40 + name.len()].copy_from_slice(name.as_bytes());
    v[180..184].copy_from_slice(&64u32.to_le_bytes()); // payload size
    v
}

fn build_car() -> Vec<u8> {
    let mut writer = BomWriter::new();
    let header_idx = writer.add_block(car_header_block());
    writer.add_variable("CARHEADER", header_idx);
    let keyfmt_idx = writer.add_block(key_format_block());
    writer.add_variable("KEYFORMAT", keyfmt_idx);

    let facets = vec![(b"icon\0".to_vec(), facet_value(5))];
    let facet_tree = writer.build_tree(&facets);
    writer.add_variable("FACETKEYS", facet_tree);

    let renditions = vec![
        (rendition_key(5, 2), rendition_value("icon@2x.png", 64, 64)),
        (rendition_key(6, 1), rendition_value("other.png", 16, 16)),
    ];
    let rendition_tree = writer.build_tree(&renditions);
    writer.add_variable("RENDITIONS", rendition_tree);

    writer.serialize()
}

#[test]
fn test_car_load() {
    let data = build_car();
    let car = CarReader::load(data).expect("should load CAR");

    assert_eq!(car.header.storage_version, 12);
    assert_eq!(car.header.rendition_count, 1);
    assert_eq!(car.header.file_creator, "testtool");
    assert_eq!(car.header.other_creator, "none");
    assert_eq!(car.key_format_identifiers, vec![17, 12]);

    assert_eq!(car.facets.len(), 1);
    assert_eq!(car.facets[0].name, "icon");
    assert_eq!(car.facets[0].identifier(), Some(5));

    assert_eq!(car.renditions.len(), 2);
    let r = &car.renditions[0];
    assert_eq!(r.name, "icon@2x.png");
    assert_eq!(r.width, 64);
    assert_eq!(r.height, 64);
    assert_eq!(r.scale_factor, 200);
    assert_eq!(r.layout, 10);
    assert_eq!(r.data_length, 64);
    assert_eq!(r.pixel_format_string(), "ARGB");
    assert_eq!(r.file_name(), "icon@2x.png");
    assert_eq!(r.attributes.get(ATTR_IDENTIFIER), Some(5));
    assert_eq!(r.attributes.get(ATTR_SCALE), Some(2));
}

#[test]
fn test_car_lookup_renditions() {
    let data = build_car();
    let car = CarReader::load(data).expect("load");
    let matches = car.lookup_renditions(&car.facets[0]);
    assert_eq!(matches.len(), 1);
    assert_eq!(matches[0].name, "icon@2x.png");
}

#[test]
fn test_car_variables() {
    let data = build_car();
    let car = CarReader::load(data).expect("load");
    let vars = car.variables();
    assert_eq!(vars.len(), 4);
    assert_eq!(vars[0].0, "CARHEADER");
    assert_eq!(vars[0].1, 436);
}

#[test]
fn test_car_rejects_low_storage_version() {
    let mut writer = BomWriter::new();
    let mut hd = car_header_block();
    hd[8..12].copy_from_slice(&7u32.to_le_bytes());
    let header_idx = writer.add_block(hd);
    writer.add_variable("CARHEADER", header_idx);
    let keyfmt_idx = writer.add_block(key_format_block());
    writer.add_variable("KEYFORMAT", keyfmt_idx);
    let data = writer.serialize();
    assert!(CarReader::load(data).is_none());
}

#[test]
fn test_rendition_file_name_fallback() {
    let data = build_car();
    let car = CarReader::load(data).expect("load");
    let mut r = car.renditions[0].clone();
    r.name = String::new();
    assert_eq!(r.file_name(), "rendition_5");
}

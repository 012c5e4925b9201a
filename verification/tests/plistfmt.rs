//! Tests for plist format detection and key-path parsing.

use xcbuild::plistfmt::{identify_format, parse_key_path, ObjectType, PlistFormat};

#[test]
fn test_identify_xml() {
    let data = b"<?xml version=\"1.0\"?><plist><dict/></plist>";
    assert_eq!(identify_format(data), Some(PlistFormat::Xml));
}

#[test]
fn test_identify_binary() {
    let mut data = vec![0u8; 32];
    data[..8].copy_from_slice(b"bplist00");
    assert_eq!(identify_format(&data), Some(PlistFormat::Binary));
}

#[test]
fn test_identify_json() {
    let data = b"{ \"key\": \"value\" }";
    assert_eq!(identify_format(data), Some(PlistFormat::Json));
}

#[test]
fn test_key_path_parsing() {
    assert_eq!(parse_key_path(":key:subkey"), vec!["key", "subkey"]);
    assert_eq!(parse_key_path("key"), vec!["key"]);
    assert_eq!(parse_key_path(":key:0:name"), vec!["key", "0", "name"]);
}

#[test]
fn test_identify_ascii_and_unknown() {
    assert_eq!(identify_format(b"\"quoted\" = 1;"), Some(PlistFormat::Ascii));
    assert_eq!(identify_format(b"key = value;"), Some(PlistFormat::Ascii));
    assert_eq!(identify_format(b"(1, 2)"), Some(PlistFormat::Ascii));
    assert_eq!(identify_format(b""), None);
    assert_eq!(identify_format(b"\x00\x01"), None);
}

#[test]
fn test_identify_skips_bom_and_whitespace() {
    let data = b"\xef\xbb\xbf  \n <plist version=\"1.0\"/>";
    assert_eq!(identify_format(data), Some(PlistFormat::Xml));
}

#[test]
fn test_plist_format_names() {
    assert_eq!(PlistFormat::Xml.name(), "xml1");
    assert_eq!(PlistFormat::Binary.name(), "binary1");
    assert_eq!(PlistFormat::Ascii.name(), "openstep1");
    assert_eq!(PlistFormat::Json.name(), "json");
}

#[test]
fn test_plist_format_parse() {
    assert_eq!(PlistFormat::parse("xml1"), Some(PlistFormat::Xml));
    assert_eq!(PlistFormat::parse("binary1"), Some(PlistFormat::Binary));
    assert_eq!(PlistFormat::parse("openstep1"), Some(PlistFormat::Ascii));
    assert_eq!(PlistFormat::parse("ascii1"), Some(PlistFormat::Ascii));
    assert_eq!(PlistFormat::parse("json"), Some(PlistFormat::Json));
    assert_eq!(PlistFormat::parse("yaml"), None);
}

#[test]
fn test_object_type_parse() {
    assert_eq!(ObjectType::parse("string"), Some(ObjectType::String));
    assert_eq!(ObjectType::parse("dictionary"), Some(ObjectType::Dictionary));
    assert_eq!(ObjectType::parse("array"), Some(ObjectType::Array));
    assert_eq!(ObjectType::parse("bool"), Some(ObjectType::Boolean));
    assert_eq!(ObjectType::parse("real"), Some(ObjectType::Real));
    assert_eq!(ObjectType::parse("integer"), Some(ObjectType::Integer));
    assert_eq!(ObjectType::parse("date"), Some(ObjectType::Date));
    assert_eq!(ObjectType::parse("data"), Some(ObjectType::Data));
    assert_eq!(ObjectType::parse("blob"), None);
}

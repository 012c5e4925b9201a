//! Tests for the dependency-info formats.

use xcbuild::dependency::{
    BinaryDependencyInfo, DependencyError, DependencyInfo, DependencyInfoFormat,
    MakefileDependencyInfo,
};

#[test]
fn test_binary_roundtrip() {
    let info = BinaryDependencyInfo {
        version: "ld64-1".to_string(),
        missing: vec!["/missing/file".to_string()],
        dependency_info: DependencyInfo {
            inputs: vec!["/input/a.o".to_string()],
            outputs: vec!["/output/a.out".to_string()],
        },
    };

    let data = info.serialize();
    let info2 = BinaryDependencyInfo::deserialize(&data).unwrap();
    assert_eq!(info2.version, "ld64-1");
    assert_eq!(info2.dependency_info.inputs, vec!["/input/a.o"]);
    assert_eq!(info2.dependency_info.outputs, vec!["/output/a.out"]);
    assert_eq!(info2.missing, vec!["/missing/file"]);
}

#[test]
fn test_makefile_roundtrip() {
    let info = MakefileDependencyInfo {
        dependency_info: vec![DependencyInfo {
            outputs: vec!["output.o".to_string()],
            inputs: vec!["input.c".to_string(), "header.h".to_string()],
        }],
    };

    let serialized = info.serialize();
    let info2 = MakefileDependencyInfo::deserialize(&serialized).unwrap();
    assert_eq!(info2.dependency_info.len(), 1);
    assert_eq!(info2.dependency_info[0].outputs, vec!["output.o"]);
    assert_eq!(
        info2.dependency_info[0].inputs,
        vec!["input.c", "header.h"]
    );
}

#[test]
fn test_format_parse() {
    assert_eq!(
        DependencyInfoFormat::parse("binary").unwrap(),
        DependencyInfoFormat::Binary
    );
    assert_eq!(
        DependencyInfoFormat::parse("makefile").unwrap(),
        DependencyInfoFormat::Makefile
    );
    assert_eq!(
        DependencyInfoFormat::parse("directory").unwrap(),
        DependencyInfoFormat::Directory
    );
    assert!(DependencyInfoFormat::parse("unknown").is_err());
}

#[test]
fn test_binary_deserialize_errors() {
    // A command byte with nothing after it.
    match BinaryDependencyInfo::deserialize(&[0x10]) {
        Err(DependencyError::MissingString) => {}
        other => panic!("expected MissingString, got {:?}", other),
    }
    // A string that never terminates.
    match BinaryDependencyInfo::deserialize(&[0x10, b'a', b'b']) {
        Err(DependencyError::UnterminatedString) => {}
        other => panic!("expected UnterminatedString, got {:?}", other),
    }
    // Two version commands.
    match BinaryDependencyInfo::deserialize(&[0x00, b'v', 0, 0x00, b'w', 0]) {
        Err(DependencyError::MultipleVersions) => {}
        other => panic!("expected MultipleVersions, got {:?}", other),
    }
    // An unknown command byte.
    match BinaryDependencyInfo::deserialize(&[0x7f, b'x', 0]) {
        Err(DependencyError::UnknownCommand(0x7f)) => {}
        other => panic!("expected UnknownCommand, got {:?}", other),
    }
}

#[test]
fn test_makefile_escapes() {
    let info = MakefileDependencyInfo {
        dependency_info: vec![DependencyInfo {
            outputs: vec!["out put.o".to_string()],
            inputs: vec!["a#b.c".to_string()],
        }],
    };
    let serialized = info.serialize();
    assert!(serialized.contains("out\\ put.o"));
    assert!(serialized.contains("a\\#b.c"));
    let back = MakefileDependencyInfo::deserialize(&serialized).unwrap();
    assert_eq!(back.dependency_info[0].outputs, vec!["out put.o"]);
    assert_eq!(back.dependency_info[0].inputs, vec!["a#b.c"]);
}

#[test]
fn test_makefile_errors() {
    match MakefileDependencyInfo::deserialize("orphan.o\n") {
        Err(DependencyError::OutputWithoutInputs) => {}
        other => panic!("expected OutputWithoutInputs, got {:?}", other),
    }
    match MakefileDependencyInfo::deserialize(":starts.with.colon") {
        Err(DependencyError::InvalidMakefileSyntax) => {}
        other => panic!("expected InvalidMakefileSyntax, got {:?}", other),
    }
}

#[test]
fn test_makefile_comments_ignored() {
    let text = "# a comment line\nout.o: in.c\n";
    let info = MakefileDependencyInfo::deserialize(text).unwrap();
    assert_eq!(info.dependency_info.len(), 1);
    assert_eq!(info.dependency_info[0].outputs, vec!["out.o"]);
    assert_eq!(info.dependency_info[0].inputs, vec!["in.c"]);
}

#[test]
fn test_format_names() {
    assert_eq!(DependencyInfoFormat::Binary.name(), "binary");
    assert_eq!(DependencyInfoFormat::Directory.name(), "directory");
    assert_eq!(DependencyInfoFormat::Makefile.name(), "makefile");
}

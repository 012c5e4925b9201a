//! Tests for xcconfig setting parsing and flattening.

use xcbuild::pbxsetting::{Config, ConfigEntry, Setting};

#[test]
fn test_parse_setting() {
    let s = Setting::parse("FOO = bar").unwrap();
    assert_eq!(s.name, "FOO");
    assert_eq!(s.value, "bar");
}

#[test]
fn test_parse_setting_no_spaces() {
    let s = Setting::parse("FOO=bar").unwrap();
    assert_eq!(s.name, "FOO");
    assert_eq!(s.value, "bar");
}

#[test]
fn test_parse_setting_rejects() {
    assert!(Setting::parse("no equals sign").is_none());
    assert!(Setting::parse(" = value").is_none());
}

#[test]
fn test_parse_setting_empty_value() {
    let s = Setting::parse("KEY =").unwrap();
    assert_eq!(s.name, "KEY");
    assert_eq!(s.value, "");
}

#[test]
fn test_all_settings_flattens_includes() {
    let inner = Config {
        path: "inner.xcconfig".to_string(),
        entries: vec![ConfigEntry::Setting(Setting {
            name: "B".to_string(),
            value: "2".to_string(),
        })],
    };
    let outer = Config {
        path: "outer.xcconfig".to_string(),
        entries: vec![
            ConfigEntry::Setting(Setting {
                name: "A".to_string(),
                value: "1".to_string(),
            }),
            ConfigEntry::Include {
                path: "inner.xcconfig".to_string(),
                config: Box::new(inner),
            },
            ConfigEntry::Setting(Setting {
                name: "C".to_string(),
                value: "3".to_string(),
            }),
        ],
    };
    let settings = outer.all_settings();
    let names: Vec<&str> = settings.iter().map(|s| s.name.as_str()).collect();
    assert_eq!(names, vec!["A", "B", "C"]);
}

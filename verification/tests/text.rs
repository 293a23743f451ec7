use devpilot::manifest::{JsonValue, TomlValue};
use devpilot::paths::{dir_of_str, extension_str, file_name_str, file_stem_str, last_segment_str, path_str};
use devpilot::text::{decimal_string, is_alphanumeric, is_whitespace, to_lowercase};

#[test]
fn char_classes_follow_unicode() {
    assert!(is_alphanumeric('é'));
    assert!(is_alphanumeric('7'));
    assert!(!is_alphanumeric('_'));
    assert!(is_whitespace('\u{2003}'));
    assert!(!is_whitespace('x'));
}

#[test]
fn lowercase_changes_the_text() {
    assert_eq!(to_lowercase("HeLLo ÄÖ"), "hello äö");
    assert_eq!(to_lowercase(""), "");
}

#[test]
fn decimal_strings() {
    assert_eq!(decimal_string(0), "0");
    assert_eq!(decimal_string(4096), "4096");
    assert_eq!(decimal_string(u64::MAX), "18446744073709551615");
}

#[test]
fn path_pieces() {
    assert_eq!(file_name_str("src/lib.rs").as_deref(), Some("lib.rs"));
    assert_eq!(file_stem_str("src/lib.rs").as_deref(), Some("lib"));
    assert_eq!(extension_str("src/lib.rs").as_deref(), Some("rs"));
    assert_eq!(extension_str("Makefile"), None);
    assert_eq!(extension_str(".gitignore"), None);
    assert_eq!(dir_of_str("src/lib.rs"), "src");
    assert_eq!(dir_of_str("lib.rs"), ".");
    assert_eq!(last_segment_str("crate::utils::fmt"), "fmt");
    assert_eq!(path_str("a\\b\\c.rs"), "a/b/c.rs");
}

#[test]
fn json_and_toml_lookups() {
    let v = JsonValue::Object(vec![
        ("a".to_string(), JsonValue::Str("x".to_string())),
        ("b".to_string(), JsonValue::Null),
        ("a".to_string(), JsonValue::Str("y".to_string())),
    ]);
    assert_eq!(v.get("a").and_then(|x| x.as_str()), Some("x"));
    assert!(v.get("b").unwrap().as_str().is_none());
    assert!(v.get("c").is_none());
    let t = TomlValue::Table(vec![("k".to_string(), TomlValue::Str("v".to_string()))]);
    assert_eq!(t.get("k").and_then(|x| x.as_str()), Some("v"));
    assert!(TomlValue::Integer(3).get("k").is_none());
}

#[test]
fn whitespace_agrees_with_std_on_every_char() {
    for n in 0u32..=0x10FFFF {
        if let Some(c) = char::from_u32(n) {
            assert_eq!(devpilot::text::is_whitespace(c), c.is_whitespace(), "{:#x}", n);
        }
    }
}

use configtree::errors::ConfigError;
use configtree::format::Format;
use configtree::string_format::StringFormat;

#[test]
fn deserialize_bytes_to_string() {
    let f: StringFormat = StringFormat::new();
    let s: String = String::from("Hello, world!");
    assert_eq!(f.deserialize(s.as_bytes().to_vec(), None).unwrap().0, s);
}

#[test]
fn deserialize_defaults() {
    let f: StringFormat = StringFormat::new();
    let s: String = String::from("Hello, world!");
    assert_eq!(f.deserialize(vec![], Some(&s)).unwrap().0, s);
}

#[test]
fn serialize_string_to_bytes() {
    let f: StringFormat = StringFormat::new();
    let s: String = String::from("Hello, world!");
    assert_eq!(f.serialize(Some(&s)), s.as_bytes().to_vec());
}

#[test]
fn deserialize_empty_without_defaults() {
    let f: StringFormat = StringFormat::new();
    let d = f.deserialize(vec![], None).unwrap();
    assert_eq!(d.0, "");
    assert!(d.1);
}

#[test]
fn deserialize_nonempty_never_defaults() {
    let f: StringFormat = StringFormat::new();
    let d = f.deserialize(b"abc".to_vec(), Some(&String::from("fallback"))).unwrap();
    assert_eq!(d.0, "abc");
    assert!(!d.1);
}

#[test]
fn deserialize_invalid_utf8_fails() {
    let f: StringFormat = StringFormat::new();
    let r = f.deserialize(vec![0xff, 0xfe], None);
    assert!(matches!(r, Err(ConfigError::Decode)));
}

#[test]
fn serialize_none_is_empty() {
    let f: StringFormat = StringFormat::new();
    assert_eq!(f.serialize(None), Vec::<u8>::new());
}

use mediatype::{Name, ValidationError};
use std::cmp::Ordering;

#[test]
fn name_accepts_restricted_names() {
    for text in ["text", "PLAIN", "svg", "vnd.api+json", "x-www-form-urlencoded", "*", "3gpp", "a!#$%&'*+-.^_"] {
        let name = Name::new(text).unwrap();
        assert_eq!(name.as_str(), text);
        assert_eq!(name.as_bytes(), text.as_bytes());
        assert_eq!(name.to_string(), text);
    }
}

#[test]
fn name_rejects_empty() {
    assert_eq!(Name::new("").unwrap_err(), ValidationError::Empty);
}

#[test]
fn name_length_bound_is_127() {
    let longest = "a".repeat(127);
    let too_long = "a".repeat(128);
    assert_eq!(Name::new(&longest).unwrap().as_str(), longest);
    assert_eq!(Name::new(&too_long).unwrap_err(), ValidationError::TooLong);
}

#[test]
fn name_too_long_is_reported_before_its_bytes() {
    let mut text = "a".repeat(127);
    text.push(' ');
    assert_eq!(Name::new(&text).unwrap_err(), ValidationError::TooLong);
}

#[test]
fn name_rejects_disallowed_byte_with_its_offset() {
    assert_eq!(Name::new("te xt").unwrap_err(), ValidationError::InvalidChar(2));
    assert_eq!(Name::new("a/b").unwrap_err(), ValidationError::InvalidChar(1));
    assert_eq!(Name::new("abc;").unwrap_err(), ValidationError::InvalidChar(3));
    assert_eq!(Name::new("a=b").unwrap_err(), ValidationError::InvalidChar(1));
    assert_eq!(Name::new("a\"").unwrap_err(), ValidationError::InvalidChar(1));
    assert_eq!(Name::new("na\u{ef}ve").unwrap_err(), ValidationError::InvalidChar(2));
    assert_eq!(Name::new(" ").unwrap_err(), ValidationError::InvalidChar(0));
}

#[test]
fn name_rejects_disallowed_first_byte() {
    assert_eq!(Name::new(".abc").unwrap_err(), ValidationError::InvalidChar(0));
    assert_eq!(Name::new("+xml").unwrap_err(), ValidationError::InvalidChar(0));
    assert_eq!(Name::new("-x").unwrap_err(), ValidationError::InvalidChar(0));
    assert_eq!(Name::new("_x").unwrap_err(), ValidationError::InvalidChar(0));
    assert!(Name::new("x-").is_ok());
    assert!(Name::new("*x").is_ok());
}

#[test]
fn name_equality_ignores_case() {
    assert_eq!(Name::new("TEXT").unwrap(), Name::new("text").unwrap());
    assert_eq!(Name::new("Svg+Xml").unwrap(), Name::new("sVG+xML").unwrap());
    assert_ne!(Name::new("text").unwrap(), Name::new("texts").unwrap());
    assert_ne!(Name::new("text").unwrap(), Name::new("tex").unwrap());
    assert_ne!(Name::new("a-b").unwrap(), Name::new("a_b").unwrap());
}

#[test]
fn name_is_written_as_given() {
    assert_eq!(Name::new("TeXt").unwrap().to_string(), "TeXt");
    assert_eq!(Name::new("TeXt").unwrap().as_str(), "TeXt");
}

#[test]
fn name_order_ignores_case() {
    let name = |s: &'static str| Name::new(s).unwrap();
    assert_eq!(name("abc").cmp(&name("ABD")), Ordering::Less);
    assert_eq!(name("ABD").cmp(&name("abc")), Ordering::Greater);
    assert_eq!(name("ABC").cmp(&name("abc")), Ordering::Equal);
    assert_eq!(name("ab").cmp(&name("abc")), Ordering::Less);
    assert_eq!(name("b").cmp(&name("ABC")), Ordering::Greater);
    assert_eq!(name("Z").cmp(&name("a")), Ordering::Greater);
    assert_eq!(name("Z").partial_cmp(&name("a")), Some(Ordering::Greater));
    assert!(name("image") < name("TEXT"));
    assert!(name("TEXT") <= name("text"));
}

use mediatype::{ValidationError, Value};
use std::cmp::Ordering;

#[test]
fn value_token_is_kept_and_written_bare() {
    for text in ["UTF-8", "utf-8", "dyEV84n7XNJ", "1", "*", "a.b+c", "-x"] {
        let value = Value::new(text).unwrap();
        assert_eq!(value.as_str(), text);
        assert_eq!(value.content(), text.as_bytes());
        assert_eq!(value.to_string(), text);
    }
}

#[test]
fn value_rejects_empty() {
    assert_eq!(Value::new("").unwrap_err(), ValidationError::Empty);
    assert_eq!(Value::new("\"\"").unwrap_err(), ValidationError::Empty);
}

#[test]
fn value_rejects_unterminated_quote() {
    assert_eq!(Value::new("\"").unwrap_err(), ValidationError::UnterminatedQuote);
    assert_eq!(Value::new("\"abc").unwrap_err(), ValidationError::UnterminatedQuote);
    assert_eq!(Value::new("\"abc\\\"").unwrap_err(), ValidationError::UnterminatedQuote);
    assert_eq!(Value::new("\"abc\\").unwrap_err(), ValidationError::UnterminatedQuote);
}

#[test]
fn value_rejects_text_behind_closing_quote() {
    assert_eq!(Value::new("\"a\"b").unwrap_err(), ValidationError::InvalidChar(3));
    assert_eq!(Value::new("\"a\" ").unwrap_err(), ValidationError::InvalidChar(3));
    assert_eq!(Value::new("\"a\"\"b\"").unwrap_err(), ValidationError::InvalidChar(3));
}

#[test]
fn value_empty_quotes_are_reported_before_what_follows() {
    assert_eq!(Value::new("\"\"x").unwrap_err(), ValidationError::Empty);
}

#[test]
fn value_quoted_string_is_decoded() {
    assert_eq!(Value::new("\"hello world\"").unwrap().content(), b"hello world");
    assert_eq!(Value::new("\"a\\\"b\"").unwrap().content(), b"a\"b");
    assert_eq!(Value::new("\"a\\\\b\"").unwrap().content(), b"a\\b");
    assert_eq!(Value::new("\"a\\bc\"").unwrap().content(), b"abc");
    assert_eq!(Value::new("\"\\\"\"").unwrap().content(), b"\"");
    assert_eq!(Value::new("\"\\\\\"").unwrap().content(), b"\\");
    assert_eq!(Value::new("\"\\\u{e9}\"").unwrap().content(), "\u{e9}".as_bytes());
}

#[test]
fn value_raw_text_stands_for_itself() {
    assert_eq!(Value::new("hello world").unwrap().content(), b"hello world");
    assert_eq!(Value::new("a\"b").unwrap().content(), b"a\"b");
    assert_eq!(Value::new("a\\b").unwrap().content(), b"a\\b");
    assert_eq!(Value::new("h\u{e9}llo").unwrap().content(), "h\u{e9}llo".as_bytes());
    assert_eq!(Value::new(" ").unwrap().content(), b" ");
}

#[test]
fn value_is_written_bare_if_token_else_quoted() {
    assert_eq!(Value::new("hello world").unwrap().to_string(), "\"hello world\"");
    assert_eq!(Value::new("\"hello world\"").unwrap().to_string(), "\"hello world\"");
    assert_eq!(Value::new("\"abc\"").unwrap().to_string(), "abc");
    assert_eq!(Value::new("\"a\\bc\"").unwrap().to_string(), "abc");
    assert_eq!(Value::new("a\"b").unwrap().to_string(), "\"a\\\"b\"");
    assert_eq!(Value::new("a\\b").unwrap().to_string(), "\"a\\\\b\"");
    assert_eq!(Value::new("\"a\\\"b\"").unwrap().to_string(), "\"a\\\"b\"");
    assert_eq!(Value::new("\"a\\\\b\"").unwrap().to_string(), "\"a\\\\b\"");
    assert_eq!(Value::new("\"a\\ b\"").unwrap().to_string(), "\"a b\"");
    assert_eq!(Value::new("\"\\a\\ \\b\"").unwrap().to_string(), "\"a b\"");
    assert_eq!(Value::new("h\u{e9}llo").unwrap().to_string(), "\"h\u{e9}llo\"");
    assert_eq!(Value::new("\"\\\u{e9}\\\"\"").unwrap().to_string(), "\"\u{e9}\\\"\"");
    assert_eq!(Value::new("a;b=c").unwrap().to_string(), "\"a;b=c\"");
}

#[test]
fn value_written_is_read_back_equal() {
    for text in ["UTF-8", "hello world", "\"hello world\"", "a\"b", "a\\b", "\"a\\bc\"", "\"\\\\\"", "h\u{e9}llo", "a;b", "  "] {
        let value = Value::new(text).unwrap();
        let written = value.to_string();
        let back = Value::new(&written).unwrap();
        assert_eq!(back, value);
        assert_eq!(back.content(), value.content());
        assert_eq!(back.to_string(), written);
    }
}

#[test]
fn value_equality_is_by_content_and_case_sensitive() {
    assert_eq!(Value::new("\"abc\"").unwrap(), Value::new("abc").unwrap());
    assert_eq!(Value::new("\"a b\"").unwrap(), Value::new("a b").unwrap());
    assert_eq!(Value::new("\"a\\ b\"").unwrap(), Value::new("\"a b\"").unwrap());
    assert_ne!(Value::new("UTF-8").unwrap(), Value::new("utf-8").unwrap());
    assert_ne!(Value::new("WORLD").unwrap(), Value::new("world").unwrap());
    assert_ne!(Value::new("abc").unwrap(), Value::new("abcd").unwrap());
    assert_ne!(Value::new("\"a\\\\b\"").unwrap(), Value::new("ab").unwrap());
}

#[test]
fn value_order_is_by_content_bytes() {
    let value = |s: &'static str| Value::new(s).unwrap();
    assert_eq!(value("a").cmp(&value("b")), Ordering::Less);
    assert_eq!(value("b").cmp(&value("a")), Ordering::Greater);
    assert_eq!(value("a").cmp(&value("\"a\"")), Ordering::Equal);
    assert_eq!(value("UTF-8").cmp(&value("utf-8")), Ordering::Less);
    assert_eq!(value("ab").cmp(&value("abc")), Ordering::Less);
    assert_eq!(value("\"b\"").cmp(&value("a")), Ordering::Greater);
    assert_eq!(value("\"b\"").partial_cmp(&value("a")), Some(Ordering::Greater));
    assert!(value("\"a b\"") < value("a c"));
}

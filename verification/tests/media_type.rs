use mediatype::{MediaType, Name, ReadParams, Value, WriteParams};

fn name(s: &'static str) -> Name<'static> {
    Name::new(s).unwrap()
}

fn value(s: &'static str) -> Value<'static> {
    Value::new(s).unwrap()
}

#[test]
fn to_string() {
    let (text, plain, image, svg, xml) =
        (name("text"), name("plain"), name("image"), name("svg"), name("xml"));
    let charset_utf_8 = [(name("charset"), value("UTF-8"))];
    assert_eq!(MediaType::new(text, plain).to_string(), "text/plain");
    assert_eq!(
        MediaType::from_parts(image, svg, Some(xml), &[]).to_string(),
        "image/svg+xml"
    );
    assert_eq!(
        MediaType::from_parts(text, plain, None, &charset_utf_8).to_string(),
        "text/plain; charset=UTF-8"
    );
    assert_eq!(
        MediaType::from_parts(image, svg, Some(xml), &charset_utf_8).to_string(),
        "image/svg+xml; charset=UTF-8"
    );
}

#[test]
fn get_param() {
    let (text, plain, charset, utf_8) =
        (name("text"), name("plain"), name("charset"), value("UTF-8"));
    let charset_utf_8 = [(charset, utf_8)];
    assert_eq!(MediaType::new(text, plain).get_param(charset), None);
    assert_eq!(
        MediaType::from_parts(text, plain, None, &charset_utf_8).get_param(charset),
        Some(utf_8)
    );
    assert_eq!(
        MediaType::parse("image/svg+xml; charset=UTF-8; HELLO=WORLD; HELLO=world")
            .unwrap()
            .get_param(Name::new("hello").unwrap()),
        Some(Value::new("world").unwrap())
    );
}

#[test]
fn set_param() {
    let (text, plain, charset, utf_8) =
        (name("text"), name("plain"), name("charset"), value("UTF-8"));
    let charset_utf_8 = [(charset, utf_8)];
    let mut media_type = MediaType::from_parts(text, plain, None, &charset_utf_8);
    let lower_utf8 = Value::new("utf-8").unwrap();
    media_type.set_param(charset, lower_utf8);
    assert_eq!(media_type.to_string(), "text/plain; charset=utf-8");

    let alice = Name::new("ALICE").unwrap();
    let bob = Value::new("bob").unwrap();
    media_type.set_param(alice, bob);
    media_type.set_param(alice, bob);

    assert_eq!(
        media_type.to_string(),
        "text/plain; charset=utf-8; ALICE=bob"
    );
}

#[test]
fn remove_params() {
    let (text, plain, charset, utf_8) =
        (name("text"), name("plain"), name("charset"), value("UTF-8"));
    let charset_utf_8 = [(charset, utf_8)];
    let mut media_type = MediaType::from_parts(text, plain, None, &charset_utf_8);
    media_type.remove_params(charset);
    assert_eq!(media_type.to_string(), "text/plain");

    let mut media_type =
        MediaType::parse("image/svg+xml; hello=WORLD; charset=UTF-8; HELLO=WORLD").unwrap();
    media_type.remove_params(Name::new("hello").unwrap());
    assert_eq!(media_type.to_string(), "image/svg+xml; charset=UTF-8");
}

#[test]
fn clear_params() {
    let mut media_type = MediaType::parse("image/svg+xml; charset=UTF-8; HELLO=WORLD").unwrap();
    media_type.clear_params();
    assert_eq!(media_type.to_string(), "image/svg+xml");
}

#[test]
fn cmp() {
    assert_eq!(
        MediaType::parse("text/plain").unwrap(),
        MediaType::parse("TEXT/PLAIN").unwrap()
    );
    assert_eq!(
        MediaType::parse("image/svg+xml; charset=UTF-8").unwrap(),
        MediaType::parse("IMAGE/SVG+XML; CHARSET=UTF-8").unwrap()
    );
    assert_eq!(
        MediaType::parse("image/svg+xml; hello=WORLD; charset=UTF-8").unwrap(),
        MediaType::parse("IMAGE/SVG+XML; HELLO=WORLD; CHARSET=UTF-8").unwrap()
    );
}

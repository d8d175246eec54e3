use mediatype::{MediaType, Name, ReadParams, Value, WriteParams};
use std::cmp::Ordering;

fn name(s: &'static str) -> Name<'static> {
    Name::new(s).unwrap()
}

fn value(s: &'static str) -> Value<'static> {
    Value::new(s).unwrap()
}

#[test]
fn written_media_type_is_read_back_equal() {
    let params = [
        (name("charset"), value("UTF-8")),
        (name("Title"), value("hello world")),
        (name("q"), value("\"a\\\"b\"")),
        (name("charset"), value("\"utf-8\"")),
        (name("raw"), value("x;y=z")),
    ];
    let cases = [
        MediaType::new(name("text"), name("plain")),
        MediaType::new(name("*"), name("*")),
        MediaType::from_parts(name("image"), name("svg"), Some(name("xml")), &[]),
        MediaType::from_parts(name("IMAGE"), name("SVG"), Some(name("XML")), &params),
        MediaType::from_parts(name("application"), name("vnd.a+b"), Some(name("json")), &params[..2]),
        MediaType::from_parts(name("a+b"), name("c"), None, &params[1..]),
    ];
    for media_type in &cases {
        let written = media_type.to_string();
        let back = MediaType::parse(&written).unwrap();
        assert_eq!(&back, media_type);
        assert_eq!(back.to_string(), written);
        assert_eq!(back.cmp(media_type), Ordering::Equal);
        assert_eq!(back.hash_key(), media_type.hash_key());
    }
    assert_eq!(
        cases[3].to_string(),
        "IMAGE/SVG+XML; charset=UTF-8; Title=\"hello world\"; q=\"a\\\"b\"; charset=utf-8; raw=\"x;y=z\""
    );
}

#[test]
fn plus_in_a_written_subtype_is_read_as_the_start_of_a_suffix() {
    let media_type = MediaType::new(name("a"), name("b+c"));
    assert_eq!(media_type.to_string(), "a/b+c");
    let back = MediaType::parse("a/b+c").unwrap();
    assert_eq!(back.subty.as_str(), "b");
    assert_eq!(back.suffix.unwrap().as_str(), "c");
    assert_ne!(back, media_type);

    let media_type = MediaType::from_parts(name("a"), name("b"), Some(name("c+d")), &[]);
    assert_eq!(media_type.to_string(), "a/b+c+d");
    let back = MediaType::parse("a/b+c+d").unwrap();
    assert_eq!(back.subty.as_str(), "b+c");
    assert_eq!(back.suffix.unwrap().as_str(), "d");
    assert_ne!(back, media_type);
}

#[test]
fn equality_ignores_case_of_names_only() {
    assert_eq!(
        MediaType::parse("text/plain").unwrap(),
        MediaType::parse("TEXT/PLAIN").unwrap()
    );
    assert_eq!(
        MediaType::parse("image/svg+xml; charset=UTF-8").unwrap(),
        MediaType::parse("IMAGE/SVG+XML; CHARSET=UTF-8").unwrap()
    );
    assert_ne!(
        MediaType::parse("image/svg+xml; charset=UTF-8").unwrap(),
        MediaType::parse("image/svg+xml; charset=utf-8").unwrap()
    );
    assert_eq!(
        MediaType::parse("a/b; x=\"y\"").unwrap(),
        MediaType::parse("a/b; x=y").unwrap()
    );
    assert_ne!(MediaType::parse("a/b").unwrap(), MediaType::parse("a/c").unwrap());
    assert_ne!(MediaType::parse("a/b").unwrap(), MediaType::parse("b/b").unwrap());
    assert_ne!(MediaType::parse("a/b").unwrap(), MediaType::parse("a/b+c").unwrap());
    assert_ne!(MediaType::parse("a/b+c").unwrap(), MediaType::parse("a/b+d").unwrap());
    assert_ne!(MediaType::parse("a/b").unwrap(), MediaType::parse("a/b; x=y").unwrap());
}

#[test]
fn equality_depends_on_the_order_of_parameters() {
    assert_ne!(
        MediaType::parse("a/b; x=1; y=2").unwrap(),
        MediaType::parse("a/b; y=2; x=1").unwrap()
    );
    assert_eq!(
        MediaType::parse("a/b; x=1; y=2").unwrap(),
        MediaType::parse("A/B;X=1;Y=2").unwrap()
    );
    assert_ne!(
        MediaType::parse("a/b; x=1; x=1").unwrap(),
        MediaType::parse("a/b; x=1").unwrap()
    );
}

#[test]
fn last_parameter_of_a_name_is_the_one_read() {
    let media_type = MediaType::parse("image/svg+xml; HELLO=WORLD; HELLO=world").unwrap();
    assert_eq!(media_type.get_param(name("hello")), Some(value("world")));
    assert_eq!(media_type.get_param(name("HeLLo")), Some(value("world")));
    assert_ne!(media_type.get_param(name("hello")), Some(value("WORLD")));
    assert_eq!(media_type.get_param(name("hell")), None);
    assert_eq!(media_type.params().len(), 2);

    let params = [(name("a"), value("1")), (name("b"), value("2")), (name("A"), value("3"))];
    let media_type = MediaType::from_parts(name("x"), name("y"), None, &params);
    assert_eq!(media_type.get_param(name("a")), Some(value("3")));
    assert_eq!(media_type.get_param(name("B")), Some(value("2")));
    assert_eq!(media_type.to_string(), "x/y; a=1; b=2; A=3");
}

#[test]
fn setting_a_name_twice_leaves_one_entry_at_the_end() {
    let mut media_type = MediaType::parse("a/b; k=0; x=1; K=2; y=3").unwrap();
    media_type.set_param(name("k"), value("first"));
    assert_eq!(media_type.to_string(), "a/b; x=1; y=3; k=first");
    media_type.set_param(name("K"), value("second"));
    assert_eq!(media_type.to_string(), "a/b; x=1; y=3; K=second");
    assert_eq!(media_type.get_param(name("k")), Some(value("second")));
    assert_eq!(media_type.params().len(), 3);
    let named_k = media_type
        .params()
        .as_slice()
        .iter()
        .filter(|(key, _)| *key == name("k"))
        .count();
    assert_eq!(named_k, 1);
}

#[test]
fn setting_a_new_name_appends_it() {
    let mut media_type = MediaType::new(name("multipart"), name("form-data"));
    media_type.set_param(name("boundary"), value("dyEV84n7XNJ"));
    assert_eq!(media_type.to_string(), "multipart/form-data; boundary=dyEV84n7XNJ");
    media_type.subty = name("related");
    assert_eq!(media_type.to_string(), "multipart/related; boundary=dyEV84n7XNJ");
    media_type.set_param(name("type"), value("text/html"));
    assert_eq!(
        media_type.to_string(),
        "multipart/related; boundary=dyEV84n7XNJ; type=\"text/html\""
    );
}

#[test]
fn removing_an_absent_name_changes_nothing() {
    let params = [(name("charset"), value("UTF-8")), (name("q"), value("1"))];
    let mut media_type = MediaType::from_parts(name("text"), name("plain"), None, &params);
    let before = media_type.to_string();
    media_type.remove_params(name("boundary"));
    assert_eq!(media_type.to_string(), before);
    assert_eq!(media_type.to_string(), "text/plain; charset=UTF-8; q=1");
    let mut empty = MediaType::new(name("text"), name("plain"));
    empty.remove_params(name("charset"));
    assert_eq!(empty.to_string(), "text/plain");
}

#[test]
fn removing_a_name_removes_every_entry_in_any_case() {
    let mut media_type =
        MediaType::parse("a/b; Hello=1; x=2; HELLO=3; y=4; hello=5").unwrap();
    media_type.remove_params(name("hELLO"));
    assert_eq!(media_type.to_string(), "a/b; x=2; y=4");
    assert_eq!(media_type.get_param(name("hello")), None);
    assert_eq!(media_type.get_param(name("x")), Some(value("2")));
    assert_eq!(media_type.get_param(name("y")), Some(value("4")));
}

#[test]
fn clearing_twice_is_clearing_once() {
    let mut media_type = MediaType::parse("image/svg+xml; charset=UTF-8; HELLO=WORLD").unwrap();
    media_type.clear_params();
    assert_eq!(media_type.to_string(), "image/svg+xml");
    assert!(media_type.params().is_empty());
    let once = media_type.clone();
    media_type.clear_params();
    assert_eq!(media_type.to_string(), "image/svg+xml");
    assert_eq!(media_type, once);
    let mut empty = MediaType::new(name("a"), name("b"));
    empty.clear_params();
    assert_eq!(empty.to_string(), "a/b");
}

#[test]
fn changing_a_clone_leaves_the_other_as_it_was() {
    let params = [(name("charset"), value("UTF-8"))];
    let first = MediaType::from_parts(name("text"), name("plain"), None, &params);
    let mut second = first.clone();
    second.set_param(name("charset"), value("utf-8"));
    second.set_param(name("q"), value("1"));
    assert_eq!(first.to_string(), "text/plain; charset=UTF-8");
    assert_eq!(second.to_string(), "text/plain; charset=utf-8; q=1");
    let mut third = second.clone();
    third.clear_params();
    assert_eq!(second.to_string(), "text/plain; charset=utf-8; q=1");
    assert_eq!(third.to_string(), "text/plain");
}

#[test]
fn constructed_media_types_are_written_and_read_back() {
    let (text, plain, image, svg, xml) =
        (name("text"), name("plain"), name("image"), name("svg"), name("xml"));
    let charset_utf_8 = [(name("charset"), value("UTF-8"))];
    assert_eq!(MediaType::new(text, plain).to_string(), "text/plain");
    let image_svg = MediaType::from_parts(image, svg, Some(xml), &charset_utf_8);
    assert_eq!(image_svg.to_string(), "image/svg+xml; charset=UTF-8");
    assert_eq!(MediaType::parse("image/svg+xml; charset=UTF-8").unwrap(), image_svg);
    assert_eq!(
        MediaType::parse("IMAGE/SVG+XML").unwrap(),
        MediaType::from_parts(image, svg, Some(xml), &[])
    );
    assert_eq!(MediaType::parse("image/png").unwrap(), MediaType::new(image, name("png")));
}

#[test]
fn order_goes_by_type_subtype_suffix_then_parameters() {
    let parse = |s: &'static str| MediaType::parse(s).unwrap();
    let sorted = [
        "a/b",
        "a/b; x=1",
        "a/b; x=1; y=0",
        "a/b; x=2",
        "a/b; y=0",
        "a/b+c",
        "a/b+d",
        "a/c",
        "b/a",
    ];
    for i in 0..sorted.len() {
        for j in 0..sorted.len() {
            let (left, right) = (parse(sorted[i]), parse(sorted[j]));
            assert_eq!(left.cmp(&right), i.cmp(&j), "{} and {}", sorted[i], sorted[j]);
            assert_eq!(left.partial_cmp(&right), Some(i.cmp(&j)));
            assert_eq!(left == right, i == j);
        }
    }
    assert_eq!(parse("A/B; X=1").cmp(&parse("a/b; x=1")), Ordering::Equal);
    assert_eq!(parse("a/b; x=A").cmp(&parse("a/b; x=a")), Ordering::Less);
    assert_eq!(parse("text/plain").cmp(&parse("IMAGE/png")), Ordering::Greater);
    assert!(parse("image/png") < parse("TEXT/plain"));

    let mut shuffled: Vec<MediaType> = [8, 2, 5, 0, 7, 3, 1, 6, 4].iter().map(|&i| parse(sorted[i])).collect();
    shuffled.sort_by(|a, b| a.cmp(b));
    let written: Vec<String> = shuffled.iter().map(|m| m.to_string()).collect();
    assert_eq!(written, sorted);
}

#[test]
fn hash_key_is_the_same_for_equal_media_types() {
    let parse = |s: &'static str| MediaType::parse(s).unwrap();
    assert_eq!(parse("text/plain").hash_key(), parse("TEXT/PLAIN").hash_key());
    assert_eq!(
        parse("image/svg+xml; charset=\"UTF-8\"").hash_key(),
        parse("IMAGE/SVG+XML; CHARSET=UTF-8").hash_key()
    );
    assert_eq!(parse("a/b").hash_key(), b"a\xffb\xff\x00");
    assert_eq!(
        parse("A/B+C; K=Vv").hash_key(),
        b"a\xffb\xff\x01c\xffk\xffVv\xff"
    );
    assert_ne!(parse("a/b; x=y").hash_key(), parse("a/b; x=Y").hash_key());
    assert_ne!(parse("a/b+c").hash_key(), parse("a/b").hash_key());
    assert_ne!(parse("ab/c").hash_key(), parse("a/bc").hash_key());
}

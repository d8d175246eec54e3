use mediatype::{Field, Indices, MediaType, MediaTypeError, Name, ParamIndices, ReadParams, ValidationError, Value};

fn error_of(text: &str) -> MediaTypeError {
    MediaType::parse(text).unwrap_err()
}

#[test]
fn indices_give_the_offsets_of_every_part() {
    let text = "image/svg+xml; charset=UTF-8";
    let (indices, read) = Indices::parse(text).unwrap();
    assert_eq!(read, 28);
    assert_eq!(indices.ty(), (0, 5));
    assert_eq!(indices.subty(), (6, 9));
    assert_eq!(indices.suffix(), Some((10, 13)));
    assert_eq!(
        indices.params(),
        &[ParamIndices { name_start: 15, name_end: 22, value_start: 23, value_end: 28 }]
    );
    assert_eq!(&text[15..22], "charset");
    assert_eq!(&text[23..28], "UTF-8");
}

#[test]
fn indices_of_quoted_value_include_the_quotes() {
    let text = "a/b;x=\"y z\" ;\tk=v";
    let (indices, read) = Indices::parse(text).unwrap();
    assert_eq!(read, text.len());
    assert_eq!(indices.ty(), (0, 1));
    assert_eq!(indices.subty(), (2, 3));
    assert_eq!(indices.suffix(), None);
    assert_eq!(
        indices.params(),
        &[
            ParamIndices { name_start: 4, name_end: 5, value_start: 6, value_end: 11 },
            ParamIndices { name_start: 14, name_end: 15, value_start: 16, value_end: 17 },
        ]
    );
}

#[test]
fn partial_parse_stops_behind_the_subtype() {
    let (indices, read) = Indices::parse_partial("text/plain, image/png").unwrap();
    assert_eq!(read, 10);
    assert_eq!(indices.ty(), (0, 4));
    assert_eq!(indices.subty(), (5, 10));
    assert_eq!(indices.suffix(), None);
    assert!(indices.params().is_empty());

    let (indices, read) = Indices::parse_partial("image/svg+xml; charset=UTF-8").unwrap();
    assert_eq!(read, 13);
    assert_eq!(indices.suffix(), Some((10, 13)));
    assert!(indices.params().is_empty());

    let (_, read) = Indices::parse_partial("a/b; this is not read").unwrap();
    assert_eq!(read, 3);
}

#[test]
fn partial_parse_reports_the_errors_of_the_head() {
    assert_eq!(Indices::parse_partial("").unwrap_err(), MediaTypeError::Empty);
    assert_eq!(Indices::parse_partial("text").unwrap_err(), MediaTypeError::MissingSlash);
    assert_eq!(
        Indices::parse_partial("text/; a=b").unwrap_err(),
        MediaTypeError::InvalidName(Field::Subtype, ValidationError::Empty)
    );
}

#[test]
fn suffix_is_what_follows_the_last_plus() {
    let media_type = MediaType::parse("application/vnd.a+b+json").unwrap();
    assert_eq!(media_type.ty.as_str(), "application");
    assert_eq!(media_type.subty.as_str(), "vnd.a+b");
    assert_eq!(media_type.suffix.unwrap().as_str(), "json");
}

#[test]
fn parse_keeps_names_and_values_as_given() {
    let media_type = MediaType::parse("Image/SVG+Xml;  Charset=\"UTF-8\" ; q=0.5").unwrap();
    assert_eq!(media_type.ty.as_str(), "Image");
    assert_eq!(media_type.subty.as_str(), "SVG");
    assert_eq!(media_type.suffix.unwrap().as_str(), "Xml");
    let params = media_type.params();
    assert_eq!(params.len(), 2);
    assert!(!params.is_empty());
    let (name, value) = params.get(0).unwrap();
    assert_eq!(name.as_str(), "Charset");
    assert_eq!(value.as_str(), "\"UTF-8\"");
    assert_eq!(value.content(), b"UTF-8");
    let (name, value) = params.get(1).unwrap();
    assert_eq!(name.as_str(), "q");
    assert_eq!(value.as_str(), "0.5");
    assert_eq!(params.get(2), None);
    assert_eq!(params.as_slice().len(), 2);
}

#[test]
fn parse_accepts_white_space_around_semicolons_only() {
    for text in ["a/b;x=y", "a/b; x=y", "a/b ;x=y", "a/b \t ; \t x=y", "a/b;\tx=y"] {
        let media_type = MediaType::parse(text).unwrap();
        assert_eq!(media_type.to_string(), "a/b; x=y");
    }
    assert_eq!(error_of(" a/b"), MediaTypeError::InvalidName(Field::Type, ValidationError::InvalidChar(0)));
    assert_eq!(error_of("a /b"), MediaTypeError::InvalidName(Field::Type, ValidationError::InvalidChar(1)));
    assert_eq!(error_of("a/ b"), MediaTypeError::InvalidName(Field::Subtype, ValidationError::Empty));
    assert_eq!(error_of("a/b; x =y"), MediaTypeError::MissingEquals);
    assert_eq!(error_of("a/b; x= y"), MediaTypeError::EmptyValue);
}

#[test]
fn parse_rejects_empty_input() {
    assert_eq!(error_of(""), MediaTypeError::Empty);
}

#[test]
fn parse_rejects_missing_slash() {
    assert_eq!(error_of("textplain"), MediaTypeError::MissingSlash);
    assert_eq!(error_of("text; a=b"), MediaTypeError::MissingSlash);
    assert_eq!(error_of(" "), MediaTypeError::MissingSlash);
}

#[test]
fn parse_rejects_invalid_type() {
    assert_eq!(error_of("/plain"), MediaTypeError::InvalidName(Field::Type, ValidationError::Empty));
    assert_eq!(
        error_of("te xt/plain"),
        MediaTypeError::InvalidName(Field::Type, ValidationError::InvalidChar(2))
    );
    assert_eq!(
        error_of("t\u{eb}xt/plain"),
        MediaTypeError::InvalidName(Field::Type, ValidationError::InvalidChar(1))
    );
    assert_eq!(
        error_of(".text/plain"),
        MediaTypeError::InvalidName(Field::Type, ValidationError::InvalidChar(0))
    );
    let long = format!("{}/plain", "a".repeat(128));
    assert_eq!(error_of(&long), MediaTypeError::InvalidName(Field::Type, ValidationError::TooLong));
    let longest = format!("{}/plain", "a".repeat(127));
    assert!(MediaType::parse(&longest).is_ok());
}

#[test]
fn parse_rejects_invalid_subtype() {
    assert_eq!(error_of("text/"), MediaTypeError::InvalidName(Field::Subtype, ValidationError::Empty));
    assert_eq!(error_of("text/;a=b"), MediaTypeError::InvalidName(Field::Subtype, ValidationError::Empty));
    assert_eq!(error_of("text/@"), MediaTypeError::InvalidName(Field::Subtype, ValidationError::Empty));
    assert_eq!(error_of("text/+xml"), MediaTypeError::InvalidName(Field::Subtype, ValidationError::Empty));
    assert_eq!(
        error_of("text/.plain"),
        MediaTypeError::InvalidName(Field::Subtype, ValidationError::InvalidChar(0))
    );
    let long = format!("text/{}", "a".repeat(128));
    assert_eq!(error_of(&long), MediaTypeError::InvalidName(Field::Subtype, ValidationError::TooLong));
    let long_with_suffix = format!("text/{}+xml", "a".repeat(128));
    assert_eq!(
        error_of(&long_with_suffix),
        MediaTypeError::InvalidName(Field::Subtype, ValidationError::TooLong)
    );
}

#[test]
fn parse_rejects_invalid_suffix() {
    assert_eq!(error_of("text/plain+"), MediaTypeError::InvalidName(Field::Suffix, ValidationError::Empty));
    assert_eq!(
        error_of("text/plain+.x"),
        MediaTypeError::InvalidName(Field::Suffix, ValidationError::InvalidChar(0))
    );
    let long = format!("text/plain+{}", "a".repeat(128));
    assert_eq!(error_of(&long), MediaTypeError::InvalidName(Field::Suffix, ValidationError::TooLong));
}

#[test]
fn parse_rejects_invalid_parameter_name() {
    let empty = MediaTypeError::InvalidName(Field::ParamName, ValidationError::Empty);
    assert_eq!(error_of("text/plain;"), empty);
    assert_eq!(error_of("text/plain; "), empty);
    assert_eq!(error_of("text/plain; =x"), empty);
    assert_eq!(error_of("text/plain; a=b;"), empty);
    assert_eq!(error_of("text/plain;;a=b"), empty);
    assert_eq!(
        error_of("text/plain; .a=x"),
        MediaTypeError::InvalidName(Field::ParamName, ValidationError::InvalidChar(0))
    );
    let long = format!("text/plain; {}=x", "a".repeat(128));
    assert_eq!(error_of(&long), MediaTypeError::InvalidName(Field::ParamName, ValidationError::TooLong));
}

#[test]
fn parse_rejects_missing_equals() {
    assert_eq!(error_of("text/plain; charset"), MediaTypeError::MissingEquals);
    assert_eq!(error_of("text/plain; char set=x"), MediaTypeError::MissingEquals);
    assert_eq!(error_of("text/plain; charset; a=b"), MediaTypeError::MissingEquals);
    assert_eq!(error_of("text/plain; a\"=b"), MediaTypeError::MissingEquals);
}

#[test]
fn parse_rejects_empty_value() {
    assert_eq!(error_of("text/plain; charset="), MediaTypeError::EmptyValue);
    assert_eq!(error_of("text/plain; charset=\"\""), MediaTypeError::EmptyValue);
    assert_eq!(error_of("text/plain; charset=; a=b"), MediaTypeError::EmptyValue);
    assert_eq!(error_of("text/plain; a=\u{e9}"), MediaTypeError::EmptyValue);
}

#[test]
fn parse_rejects_unterminated_quote() {
    assert_eq!(error_of("text/plain; charset=\"unterminated"), MediaTypeError::UnterminatedQuote);
    assert_eq!(error_of("text/plain; charset=\""), MediaTypeError::UnterminatedQuote);
    assert_eq!(error_of("text/plain; charset=\"a\\"), MediaTypeError::UnterminatedQuote);
    assert_eq!(error_of("text/plain; charset=\"a\\\""), MediaTypeError::UnterminatedQuote);
}

#[test]
fn parse_rejects_unexpected_byte_behind_a_part() {
    assert_eq!(error_of("text/plain; charset=\"a\"b"), MediaTypeError::UnexpectedChar(23));
    assert_eq!(error_of("text/pl@in"), MediaTypeError::UnexpectedChar(7));
    assert_eq!(error_of("text/plain; a=b@"), MediaTypeError::UnexpectedChar(15));
    assert_eq!(error_of("text/plain,"), MediaTypeError::UnexpectedChar(10));
    assert_eq!(error_of("text/plain; a=b=c"), MediaTypeError::UnexpectedChar(15));
    assert_eq!(error_of("text/plain/x"), MediaTypeError::UnexpectedChar(10));
}

#[test]
fn parse_rejects_trailing_input() {
    assert_eq!(error_of("text/plain "), MediaTypeError::TrailingInput(10));
    assert_eq!(error_of("text/plain x"), MediaTypeError::TrailingInput(10));
    assert_eq!(error_of("text/plain; a=b c"), MediaTypeError::TrailingInput(15));
    assert_eq!(error_of("text/plain; a=\"b\"\t"), MediaTypeError::TrailingInput(17));
}

#[test]
fn parse_reads_quoted_values() {
    let media_type = MediaType::parse("a/b; x=\"1; y=2\"; z=\"\\\"q\\\"\"").unwrap();
    assert_eq!(media_type.params().len(), 2);
    assert_eq!(
        media_type.get_param(Name::new("x").unwrap()),
        Some(Value::new("1; y=2").unwrap())
    );
    assert_eq!(media_type.get_param(Name::new("y").unwrap()), None);
    assert_eq!(
        media_type.get_param(Name::new("Z").unwrap()).unwrap().content(),
        b"\"q\""
    );
    let media_type = MediaType::parse("a/b; x=\"\u{e9}\"").unwrap();
    assert_eq!(
        media_type.get_param(Name::new("x").unwrap()).unwrap().content(),
        "\u{e9}".as_bytes()
    );
}

#[test]
fn parse_never_panics_and_accepted_text_is_read_back() {
    let alphabet = ["a", "B", "/", "+", ";", "=", "\"", "\\", " ", ".", "*", "\u{e9}"];
    let mut texts: Vec<String> = vec![String::new()];
    let mut from = 0;
    for _ in 0..4 {
        let to = texts.len();
        for i in from..to {
            for symbol in alphabet {
                let mut text = texts[i].clone();
                text.push_str(symbol);
                texts.push(text);
            }
        }
        from = to;
    }
    let mut accepted = 0;
    for tail in &texts {
        for head in ["", "a/b", "a/b;x=", "a/b+c; x=\"", "a/b; x=y"] {
            let text = format!("{}{}", head, tail);
            let _ = Indices::parse_partial(&text);
            let _ = Name::new(&text);
            let _ = Value::new(&text);
            if let Ok(media_type) = MediaType::parse(&text) {
                accepted += 1;
                let written = media_type.to_string();
                let back = MediaType::parse(&written).unwrap();
                assert_eq!(back, media_type);
                assert_eq!(back.to_string(), written);
            }
        }
    }
    assert!(accepted > 1000);
}

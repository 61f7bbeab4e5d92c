use rufus::emission::{Emission, EmissionParseError};

fn parsed(line: &str) -> (String, String) {
    match Emission::parse(line) {
        Ok(e) => (e.id().clone(), e.value().clone()),
        Err(e) => panic!("{}", e.message()),
    }
}

#[test]
fn parses_identifier_and_decoded_value() {
    assert_eq!(parsed("*1*eA=="), ("1".to_string(), "x".to_string()));
    assert_eq!(
        parsed("*greeting*aGVsbG8gd29ybGQ="),
        ("greeting".to_string(), "hello world".to_string())
    );
}

#[test]
fn text_before_the_first_marker_is_ignored() {
    assert_eq!(parsed("output: *7*eQ=="), ("7".to_string(), "y".to_string()));
}

#[test]
fn payload_runs_to_the_end_of_the_line() {
    // the payload holds a third marker, which base64 rejects
    assert!(matches!(
        Emission::parse("*1*eA==*"),
        Err(EmissionParseError::DecodeError(_))
    ));
}

#[test]
fn empty_identifier_and_empty_value() {
    assert_eq!(parsed("**"), (String::new(), String::new()));
    assert!(matches!(
        Emission::parse("***"),
        Err(EmissionParseError::DecodeError(_))
    ));
}

#[test]
fn line_without_two_markers_is_a_format_error() {
    for line in ["", "plain text", "*only one", "no markers eA=="] {
        assert!(matches!(
            Emission::parse(line),
            Err(EmissionParseError::FormatError(_))
        ));
    }
}

#[test]
fn undecodable_payload_is_a_decode_error() {
    assert!(matches!(
        Emission::parse("*1*not base64!"),
        Err(EmissionParseError::DecodeError(_))
    ));
    // missing padding
    assert!(matches!(
        Emission::parse("*1*eA"),
        Err(EmissionParseError::DecodeError(_))
    ));
}

#[test]
fn payload_that_is_not_utf8_is_a_decode_error() {
    // "/w==" is the single byte 0xff
    assert!(matches!(
        Emission::parse("*1*/w=="),
        Err(EmissionParseError::DecodeError(_))
    ));
}

#[test]
fn parser_survives_arbitrary_text() {
    let lines = [
        "\u{0}\u{1}**",
        "*\u{ffff}*\u{10ffff}",
        "**====",
        "*a\nb*eA==",
        "\r\n*\r*\r",
        "ü*ö*ä",
    ];
    for line in lines {
        let _ = Emission::parse(line);
    }
    assert_eq!(parsed("*a\nb*eA=="), ("a\nb".to_string(), "x".to_string()));
}

#[test]
fn error_messages_name_the_kind() {
    let f = Emission::parse("nothing").err().unwrap();
    assert_eq!(f.message(), "Format Error: Invalid format");
    let g = Emission::parse("*only one").err().unwrap();
    assert_eq!(g.message(), "Format Error: ID not found in emission string");
    let d = Emission::parse("*1*!").err().unwrap();
    assert!(d.message().starts_with("Decode Error: "));
}

#[test]
fn line_of_an_emission_is_exact() {
    let e = Emission::new("1".to_string(), "x".to_string());
    assert_eq!(e.to_line(), "*1*eA==");
}

#[test]
fn formatted_line_parses_back() {
    let cases = [
        ("1", "x"),
        ("id with spaces", "multi\nline\nvalue"),
        ("", ""),
        ("ünï", "värde ✓ 🎉"),
        ("42", "*stars* in the value*"),
    ];
    for (id, value) in cases {
        let e = Emission::new(id.to_string(), value.to_string());
        let line = e.to_line();
        assert_eq!(parsed(&line), (id.to_string(), value.to_string()));
    }
}

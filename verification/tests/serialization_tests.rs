use woods::serialization::{parse_format, SaveFormat, UnknownFormatError};

#[test]
fn omitted_format_defaults_to_text() {
    assert_eq!(parse_format(None).unwrap(), SaveFormat::Text);
}

#[test]
fn valid_format_names_are_recognized() {
    assert_eq!(parse_format(Some("text")).unwrap(), SaveFormat::Text);
    assert_eq!(parse_format(Some("binary")).unwrap(), SaveFormat::Binary);
}

#[test]
fn unknown_format_is_rejected_with_the_offending_name() {
    let e = parse_format(Some("yaml")).unwrap_err();
    assert_eq!(e.format, "yaml");
    let e2 = parse_format(Some("")).unwrap_err();
    assert_eq!(e2.format, "");
}

#[test]
fn unknown_format_error_keeps_the_name() {
    let e = UnknownFormatError::new("csv");
    assert_eq!(e.format, "csv");
}

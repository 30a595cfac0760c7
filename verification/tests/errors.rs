use jsonfmt::format_json;
use jsonfmt::format_json_fast;
use jsonfmt::Indent;
use jsonfmt::JsonError;

fn fmt_err(input: &[u8]) -> JsonError {
    let mut out = Vec::new();
    let mut indent = Indent::new(2);
    format_json(&mut out, input, &mut indent).unwrap_err()
}

#[test]
fn truncated_input_mid_string_is_unexpected_eof() {
    assert_eq!(fmt_err(br#"{"a": "tr"#), JsonError::UnexpectedEof);
    assert_eq!(fmt_err(br#""never closed \" still open"#), JsonError::UnexpectedEof);
}

#[test]
fn truncated_input_after_a_value_is_unexpected_eof() {
    // The number itself may end the stream; the container around it may not.
    assert_eq!(fmt_err(b"[1"), JsonError::UnexpectedEof);
    assert_eq!(fmt_err(b"[1,"), JsonError::UnexpectedEof);
    assert_eq!(fmt_err(br#"{"a": 1"#), JsonError::UnexpectedEof);
    assert_eq!(fmt_err(b"["), JsonError::UnexpectedEof);
    assert_eq!(fmt_err(b"{"), JsonError::UnexpectedEof);
    assert_eq!(fmt_err(b""), JsonError::UnexpectedEof);
}

#[test]
fn truncated_literal_keyword_is_unexpected_eof() {
    assert_eq!(fmt_err(b"tru"), JsonError::UnexpectedEof);
    assert_eq!(fmt_err(b"n"), JsonError::UnexpectedEof);
    assert_eq!(fmt_err(br#"{"a": fals"#), JsonError::UnexpectedEof);
}

#[test]
fn invalid_literal_spelling_is_a_literal_mismatch() {
    assert_eq!(fmt_err(b"nul,"), JsonError::LiteralMismatch(b','));
    assert_eq!(fmt_err(b"ture"), JsonError::LiteralMismatch(b'u'));
    assert_eq!(fmt_err(br#"{"a": fakse}"#), JsonError::LiteralMismatch(b'k'));
}

#[test]
fn missing_colon_is_a_literal_mismatch() {
    assert_eq!(fmt_err(br#"{"a" 1}"#), JsonError::LiteralMismatch(b'1'));
}

#[test]
fn unexpected_bytes_carry_the_offending_byte() {
    assert_eq!(fmt_err(b"@"), JsonError::UnexpectedInput(b'@'));
    assert_eq!(fmt_err(b"]"), JsonError::UnexpectedInput(b']'));
    assert_eq!(fmt_err(br#"{]"#), JsonError::UnexpectedInput(b']'));
    assert_eq!(fmt_err(b"[1;2]"), JsonError::UnexpectedInput(b';'));
    assert_eq!(fmt_err(br#"{"a": 1 "b": 2}"#), JsonError::UnexpectedInput(b'"'));
}

#[test]
fn fast_formatter_reports_unterminated_strings() {
    let mut out = Vec::new();
    let mut indent = Indent::new(2);
    let r = format_json_fast(&mut out, br#"{"a": "tr"#, &mut indent);
    assert_eq!(r.unwrap_err(), JsonError::UnexpectedEof);
}

#[test]
fn bytes_written_before_the_error_stay_in_the_sink() {
    let mut out = Vec::new();
    let mut indent = Indent::new(2);
    let r = format_json(&mut out, b"[1,2,@]", &mut indent);
    assert_eq!(r.unwrap_err(), JsonError::UnexpectedInput(b'@'));
    assert_eq!(out.as_slice(), b"[\n  1,\n  2,\n  ");
}

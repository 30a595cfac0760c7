use jsonfmt::scan::peek_char;
use jsonfmt::scan::skip_whitespace;
use jsonfmt::scan::write_expected;
use jsonfmt::scan::write_number;
use jsonfmt::scan::write_string;
use jsonfmt::Indent;
use jsonfmt::JsonError;

#[test]
fn peek_returns_the_next_byte_or_none() {
    assert_eq!(peek_char(b"ab", 0), Some(b'a'));
    assert_eq!(peek_char(b"ab", 1), Some(b'b'));
    assert_eq!(peek_char(b"ab", 2), None);
    assert_eq!(peek_char(b"", 0), None);
}

#[test]
fn whitespace_skipper_stops_at_the_first_other_byte() {
    let mut pos = 0usize;
    skip_whitespace(b" \t\r\n x", &mut pos);
    assert_eq!(pos, 5);
    skip_whitespace(b" \t\r\n x", &mut pos);
    assert_eq!(pos, 5);
    let mut pos2 = 0usize;
    skip_whitespace(b"   ", &mut pos2);
    assert_eq!(pos2, 3);
}

#[test]
fn string_copier_copies_the_token_verbatim() {
    let mut out = Vec::new();
    let mut pos = 0usize;
    write_string(&mut out, br#""test \\" tail"#, &mut pos).unwrap();
    assert_eq!(out.as_slice(), br#""test \\""#);
    assert_eq!(pos, 9);
}

#[test]
fn string_copier_keeps_escaped_quotes_inside_the_token() {
    let mut out = Vec::new();
    let mut pos = 0usize;
    write_string(&mut out, br#""a\"b" tail"#, &mut pos).unwrap();
    assert_eq!(out.as_slice(), br#""a\"b""#);
}

#[test]
fn string_copier_terminates_after_an_escaped_backslash() {
    // The backslash pair is consumed as one escape, so the quote that
    // follows it closes the string.
    let mut out = Vec::new();
    let mut pos = 0usize;
    write_string(&mut out, br#""a\\"x"#, &mut pos).unwrap();
    assert_eq!(out.as_slice(), br#""a\\""#);
    assert_eq!(pos, 5);
}

#[test]
fn string_copier_reports_an_unterminated_token() {
    let mut out = Vec::new();
    let mut pos = 0usize;
    let r = write_string(&mut out, br#""abc"#, &mut pos);
    assert_eq!(r.unwrap_err(), JsonError::UnexpectedEof);
    assert_eq!(out.as_slice(), br#""abc"#);
    assert_eq!(pos, 4);
}

#[test]
fn number_copier_stops_at_the_first_byte_outside_the_class() {
    let mut out = Vec::new();
    let mut pos = 0usize;
    write_number(&mut out, b"1.234e5,still", &mut pos);
    assert_eq!(out.as_slice(), b"1.234e5");
    assert_eq!(pos, 7);
}

#[test]
fn number_copier_accepts_end_of_input_as_the_token_end() {
    let mut out = Vec::new();
    let mut pos = 0usize;
    write_number(&mut out, b"-12E+3", &mut pos);
    assert_eq!(out.as_slice(), b"-12E+3");
    assert_eq!(pos, 6);
}

#[test]
fn literal_matcher_writes_the_expected_spelling_on_a_match() {
    let mut out = Vec::new();
    let mut pos = 0usize;
    write_expected(&mut out, b"null,", &mut pos, b"null").unwrap();
    assert_eq!(out.as_slice(), b"null");
    assert_eq!(pos, 4);
}

#[test]
fn literal_matcher_reports_the_first_differing_byte() {
    // The comparison reads exactly the expected length, so the four bytes
    // stay consumed even though the spelling differs.
    let mut out = Vec::new();
    let mut pos = 0usize;
    let r = write_expected(&mut out, b"nul,", &mut pos, b"null");
    assert_eq!(r.unwrap_err(), JsonError::LiteralMismatch(b','));
    assert_eq!(out.as_slice(), b"");
    assert_eq!(pos, 4);
}

#[test]
fn literal_matcher_reports_a_short_input() {
    let mut out = Vec::new();
    let mut pos = 0usize;
    let r = write_expected(&mut out, b"nu", &mut pos, b"null");
    assert_eq!(r.unwrap_err(), JsonError::UnexpectedEof);
    assert_eq!(out.as_slice(), b"");
    assert_eq!(pos, 0);
}

#[test]
fn indent_tracker_writes_width_spaces_per_level() {
    let mut indent = Indent::new(3);
    let mut out = Vec::new();
    indent.write_to(&mut out);
    assert_eq!(out.as_slice(), b"");
    indent.push();
    indent.push();
    indent.write_to(&mut out);
    assert_eq!(out.as_slice(), b"      ");
    indent.pop();
    out.clear();
    indent.write_to(&mut out);
    assert_eq!(out.as_slice(), b"   ");
}

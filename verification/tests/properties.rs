use jsonfmt::format_json;
use jsonfmt::format_json_fast;
use jsonfmt::Indent;

fn fmt(input: &[u8], width: usize) -> Vec<u8> {
    let mut out = Vec::new();
    let mut indent = Indent::new(width);
    format_json(&mut out, input, &mut indent).unwrap();
    out
}

fn fmt_fast(input: &[u8], width: usize) -> Vec<u8> {
    let mut out = Vec::new();
    let mut indent = Indent::new(width);
    format_json_fast(&mut out, input, &mut indent).unwrap();
    out
}

const SCENARIO: &[u8] = br#"{ "a" : 1 , "b": "test \\", "c": false, "d": null, "e": 1.234e5, "f":  [ 1, 2  ] , "g"   : {},"h": [[[[]]]]}"#;

#[test]
fn idempotence_of_the_grammar_formatter() {
    for width in [0usize, 1, 2, 4, 8] {
        let once = fmt(SCENARIO, width);
        let twice = fmt(&once, width);
        assert_eq!(once, twice);
    }
}

#[test]
fn idempotence_of_the_single_pass_formatter() {
    for width in [0usize, 1, 2, 4, 8] {
        let once = fmt_fast(SCENARIO, width);
        let twice = fmt_fast(&once, width);
        assert_eq!(once, twice);
        // and across the algorithms: each reproduces the other's output
        assert_eq!(fmt(&once, width), once);
        assert_eq!(fmt_fast(&fmt(SCENARIO, width), width), once);
    }
}

#[test]
fn idempotence_on_scalars_and_arrays() {
    for input in [
        &br#""test \\""#[..],
        b"-1.234e+5",
        b"[1,2,[3,[4]],null]",
        b"true",
    ] {
        let once = fmt(input, 2);
        let twice = fmt(&once, 2);
        assert_eq!(once, twice);
    }
}

#[test]
fn algorithm_equivalence_on_well_formed_inputs() {
    for input in [
        SCENARIO,
        &br#""str""#[..],
        b"123.5e-7",
        b"[1,2,[3],{\"a\":null}]",
        b"[[[]]]",
        b"{\"a\":{}}",
        b"  [ 1 , 2 ]  ",
        b"{ }",
        b"[ ]",
        b"{\"g\": {  }, \"h\": [\t] }",
        b"{\"k\": [true, false, null]}",
        br#"{"long": "aaaaaaaaaaaaaaaaaaaaaaaaaaaaaaaaaaaaaaaaaaaaaaaaaaaaaaaaaaaa"}"#,
        b"-0.00000000000000000000001e99999",
        br#"["a",1.5e3,-2,"x\"y"]"#,
    ] {
        for width in [0usize, 1, 3, 4] {
            assert_eq!(fmt(input, width), fmt_fast(input, width));
        }
    }
}

#[test]
fn literal_preservation_of_strings_and_numbers() {
    // A string or number standing alone is copied byte for byte: no
    // re-escaping, no re-encoding, no numeric normalization.
    for token in [
        &br#""test \\""#[..],
        br#""a\"b""#,
        br#""x \n y""#,
        b"1.234e5",
        b"-000.1e+00",
        b"1-2-3.e.E",
    ] {
        assert_eq!(fmt(token, 4).as_slice(), token);
        assert_eq!(fmt_fast(token, 4).as_slice(), token);
    }
}

#[test]
fn empty_object_is_two_lines_at_the_same_indentation() {
    assert_eq!(fmt(b"{}", 4).as_slice(), b"{\n}");
    assert_eq!(fmt_fast(b"{}", 4).as_slice(), b"{\n}");
    // Whitespace between the brackets changes nothing, from either
    // algorithm.
    assert_eq!(fmt(b"{ }", 4).as_slice(), b"{\n}");
    assert_eq!(fmt_fast(b"{ }", 4).as_slice(), b"{\n}");
    assert_eq!(fmt(b"[]", 4).as_slice(), b"[\n]");
    assert_eq!(fmt_fast(b"[]", 4).as_slice(), b"[\n]");
    // Nested: the closer stands where the line that opened it is indented,
    // not one level deeper.
    assert_eq!(fmt(br#"{"g":{}}"#, 4).as_slice(), b"{\n    \"g\": {\n    }\n}");
    assert_eq!(
        fmt_fast(br#"{"g":{}}"#, 4).as_slice(),
        b"{\n    \"g\": {\n    }\n}"
    );
}

#[test]
fn fast_formatter_does_not_crash_on_unbalanced_brackets() {
    // The single-pass scanner does no bracket matching: unbalanced input
    // may yield malformed output, but it must neither panic nor hang.
    for input in [&b"]"[..], b"}}}}", b"[[", b"{,}", b"]]][[["] {
        let mut out = Vec::new();
        let mut indent = Indent::new(2);
        let _ = format_json_fast(&mut out, input, &mut indent);
    }
}

#[test]
fn whitespace_before_and_between_tokens_is_discarded() {
    assert_eq!(fmt(b"  \t\r\n  null  ", 2).as_slice(), b"null");
    assert_eq!(fmt(b"[ 1 ,\t2 ,\n3 ]", 2).as_slice(), b"[\n  1,\n  2,\n  3\n]");
}

use jsonfmt::format_json;
use jsonfmt::format_json_fast;
use jsonfmt::Indent;

const TEST_CASE1_IN: &[u8] = br#"{ "a" : 1 , "b": "test \\", "c": false, "d": null, "e": 1.234e5, "f":  [ 1, 2  ] , "g"   : {},"h": [[[[]]]]}"#;
const TEST_CASE1_OUT: &[u8] = br#"{
    "a": 1,
    "b": "test \\",
    "c": false,
    "d": null,
    "e": 1.234e5,
    "f": [
        1,
        2
    ],
    "g": {
    },
    "h": [
        [
            [
                [
                ]
            ]
        ]
    ]
}"#;

#[test]
fn test_format_json() {
    let mut outbuf = Vec::<u8>::new();

    let mut indent = Indent::new(4);
    format_json(&mut outbuf, TEST_CASE1_IN, &mut indent).unwrap();
    println!(">> {}", std::str::from_utf8(&outbuf).unwrap());
    assert_eq!(outbuf.as_slice(), TEST_CASE1_OUT);
}

#[test]
fn test_format_json_fast() {
    let mut outbuf = Vec::<u8>::new();

    let mut indent = Indent::new(4);
    format_json_fast(&mut outbuf, TEST_CASE1_IN, &mut indent).unwrap();
    println!(">> {}", std::str::from_utf8(&outbuf).unwrap());
    assert_eq!(outbuf.as_slice(), TEST_CASE1_OUT);
}

#[test]
fn format_appends_after_existing_sink_content() {
    let mut outbuf = b">> ".to_vec();
    let mut indent = Indent::new(2);
    format_json(&mut outbuf, b"true", &mut indent).unwrap();
    assert_eq!(outbuf.as_slice(), b">> true");
}

#[test]
fn format_ignores_trailing_bytes_after_the_value() {
    let mut outbuf = Vec::<u8>::new();
    let mut indent = Indent::new(2);
    format_json(&mut outbuf, b"1 2 3", &mut indent).unwrap();
    assert_eq!(outbuf.as_slice(), b"1");
}

#[test]
fn format_with_zero_width_indent() {
    let mut outbuf = Vec::<u8>::new();
    let mut indent = Indent::new(0);
    format_json(&mut outbuf, br#"{"a": 1}"#, &mut indent).unwrap();
    assert_eq!(outbuf.as_slice(), b"{\n\"a\": 1\n}");
}

use tachyon_json::TachyonBuffer;
use tachyon_json::TachyonObject;
use tachyon_json::TachyonPair;
use tachyon_json::TachyonValue;

fn encode_in<const N: usize>(v: &TachyonValue<'_>, no_escape: bool) -> (Vec<u8>, bool) {
    let mut b = TachyonBuffer::<N>::default();
    v.encode(&mut b, no_escape);
    (b.to_vec(), b.has_error())
}

fn text_of(v: &TachyonValue<'_>, no_escape: bool) -> String {
    let (bytes, error) = encode_in::<4096>(v, no_escape);
    assert!(!error);
    String::from_utf8(bytes).unwrap()
}

fn object<'a>(pairs: Vec<(&'a str, TachyonValue<'a>)>) -> TachyonValue<'a> {
    TachyonValue::Object(TachyonObject {
        pairs: pairs.into_iter().map(|(key, value)| TachyonPair { key, value }).collect(),
    })
}

#[test]
fn scenario_object_with_undefined_member() {
    let mut digits = ryu::Buffer::new();
    let v = object(vec![
        ("a", TachyonValue::String("x")),
        ("b", TachyonValue::Undefined),
        ("c", TachyonValue::Number(digits.format(1.5f64))),
    ]);
    assert_eq!(text_of(&v, false), "{\"a\":\"x\",\"c\":1.5}");
}

#[test]
fn scenario_string_with_quote_backslash_and_newline() {
    let v = TachyonValue::String("a\"b\\c\n");
    let (bytes, error) = encode_in::<64>(&v, false);
    assert!(!error);
    assert_eq!(bytes, b"\"a\\\"b\\\\c\\n\"".to_vec());
    assert_eq!(bytes, vec![b'"', b'a', b'\\', b'"', b'b', b'\\', b'\\', b'c', b'\\', b'n', b'"']);
}

#[test]
fn literals_encode_as_their_tokens() {
    assert_eq!(text_of(&TachyonValue::True, false), "true");
    assert_eq!(text_of(&TachyonValue::False, false), "false");
    assert_eq!(text_of(&TachyonValue::Null, false), "null");
    assert_eq!(text_of(&TachyonValue::True, true), "true");
    assert_eq!(text_of(&TachyonValue::False, true), "false");
    assert_eq!(text_of(&TachyonValue::Null, true), "null");
}

#[test]
fn number_text_is_written_as_it_stands() {
    assert_eq!(text_of(&TachyonValue::Number("1.5"), false), "1.5");
    assert_eq!(text_of(&TachyonValue::Number("-0.0"), true), "-0.0");
    assert_eq!(text_of(&TachyonValue::Number("1e21"), false), "1e21");
    assert_eq!(text_of(&TachyonValue::Number("NaN"), false), "NaN");
}

#[test]
fn numbers_formatted_by_ryu_are_written_as_formatted() {
    let cases: [(f64, &str); 6] = [
        (1.5, "1.5"),
        (0.0, "0.0"),
        (-2.0, "-2.0"),
        (1e21, "1e21"),
        (0.1, "0.1"),
        (123456789.125, "123456789.125"),
    ];
    for (n, expected) in cases {
        let mut digits = ryu::Buffer::new();
        let v = TachyonValue::Number(digits.format(n));
        assert_eq!(text_of(&v, false), expected);
    }
}

#[test]
fn every_control_byte_has_its_escape() {
    let expected: [&str; 32] = [
        "\\u0000", "\\u0001", "\\u0002", "\\u0003", "\\u0004", "\\u0005", "\\u0006", "\\u0007",
        "\\b", "\\t", "\\n", "\\u000B", "\\f", "\\r", "\\u000E", "\\u000F", "\\u0010", "\\u0011",
        "\\u0012", "\\u0013", "\\u0014", "\\u0015", "\\u0016", "\\u0017", "\\u0018", "\\u0019",
        "\\u001A", "\\u001B", "\\u001C", "\\u001D", "\\u001E", "\\u001F",
    ];
    for c in 0u8..32 {
        let payload = String::from_utf8(vec![c]).unwrap();
        let v = TachyonValue::String(&payload);
        assert_eq!(text_of(&v, false), format!("\"{}\"", expected[c as usize]));
    }
}

#[test]
fn quote_and_backslash_are_escaped() {
    assert_eq!(text_of(&TachyonValue::String("\""), false), "\"\\\"\"");
    assert_eq!(text_of(&TachyonValue::String("\\"), false), "\"\\\\\"");
}

#[test]
fn other_bytes_pass_unescaped() {
    assert_eq!(text_of(&TachyonValue::String("a/b c~\u{7f}"), false), "\"a/b c~\u{7f}\"");
    assert_eq!(text_of(&TachyonValue::String("h\u{e9}\u{4e16}\u{1f600}"), false), "\"h\u{e9}\u{4e16}\u{1f600}\"");
    assert_eq!(text_of(&TachyonValue::String(""), false), "\"\"");
}

#[test]
fn no_escape_copies_the_payload_as_it_stands() {
    assert_eq!(text_of(&TachyonValue::String("plain"), true), "\"plain\"");
    assert_eq!(text_of(&TachyonValue::String("a\"b\\c\n"), true), "\"a\"b\\c\n\"");
    assert_eq!(text_of(&TachyonValue::String(""), true), "\"\"");
    assert_eq!(text_of(&TachyonValue::String("sevenby"), true), "\"sevenby\"");
    assert_eq!(text_of(&TachyonValue::String("thirteenbytes"), true), "\"thirteenbytes\"");
}

#[test]
fn keys_are_never_escaped() {
    let v = object(vec![("k\"\n\\", TachyonValue::String("v\""))]);
    assert_eq!(text_of(&v, false), "{\"k\"\n\\\":\"v\\\"\"}");
    assert_eq!(text_of(&v, true), "{\"k\"\n\\\":\"v\"\"}");
}

#[test]
fn keys_of_the_specialised_lengths_are_copied_whole() {
    let v = object(vec![
        ("seven_k", TachyonValue::True),
        ("thirteen_keys", TachyonValue::False),
        ("", TachyonValue::Null),
    ]);
    assert_eq!(text_of(&v, false), "{\"seven_k\":true,\"thirteen_keys\":false,\"\":null}");
}

#[test]
fn empty_object_and_array() {
    assert_eq!(text_of(&object(vec![]), false), "{}");
    assert_eq!(text_of(&TachyonValue::Array(vec![]), false), "[]");
}

#[test]
fn array_elements_keep_their_order() {
    let v = TachyonValue::Array(vec![
        TachyonValue::Number("3"),
        TachyonValue::Number("1"),
        TachyonValue::Number("2"),
        TachyonValue::Number("1"),
    ]);
    assert_eq!(text_of(&v, false), "[3,1,2,1]");
}

#[test]
fn object_members_keep_their_order_and_duplicates() {
    let v = object(vec![
        ("b", TachyonValue::Number("1")),
        ("a", TachyonValue::Number("2")),
        ("b", TachyonValue::Number("3")),
    ]);
    assert_eq!(text_of(&v, false), "{\"b\":1,\"a\":2,\"b\":3}");
}

#[test]
fn undefined_elements_leave_no_byte_and_no_comma() {
    let u = || TachyonValue::Undefined;
    let one = || TachyonValue::Number("1");
    let two = || TachyonValue::Number("2");
    assert_eq!(text_of(&TachyonValue::Array(vec![u()]), false), "[]");
    assert_eq!(text_of(&TachyonValue::Array(vec![u(), u()]), false), "[]");
    assert_eq!(text_of(&TachyonValue::Array(vec![u(), one()]), false), "[1]");
    assert_eq!(text_of(&TachyonValue::Array(vec![one(), u()]), false), "[1]");
    assert_eq!(text_of(&TachyonValue::Array(vec![one(), u(), two()]), false), "[1,2]");
    assert_eq!(text_of(&TachyonValue::Array(vec![u(), one(), u(), u(), two(), u()]), false), "[1,2]");
}

#[test]
fn undefined_members_leave_no_byte_and_no_comma() {
    let u = || TachyonValue::Undefined;
    let one = || TachyonValue::Number("1");
    let two = || TachyonValue::Number("2");
    assert_eq!(text_of(&object(vec![("a", u())]), false), "{}");
    assert_eq!(text_of(&object(vec![("a", u()), ("b", one())]), false), "{\"b\":1}");
    assert_eq!(text_of(&object(vec![("a", one()), ("b", u())]), false), "{\"a\":1}");
    assert_eq!(
        text_of(&object(vec![("a", one()), ("b", u()), ("c", two())]), false),
        "{\"a\":1,\"c\":2}"
    );
}

#[test]
fn structure_with_undefined_encodes_as_structure_without() {
    let with = TachyonValue::Array(vec![
        TachyonValue::Undefined,
        TachyonValue::String("a"),
        TachyonValue::Undefined,
        object(vec![("x", TachyonValue::Undefined), ("y", TachyonValue::Null), ("z", TachyonValue::Undefined)]),
        TachyonValue::Undefined,
    ]);
    let without = TachyonValue::Array(vec![
        TachyonValue::String("a"),
        object(vec![("y", TachyonValue::Null)]),
    ]);
    for no_escape in [false, true] {
        assert_eq!(encode_in::<64>(&with, no_escape), encode_in::<64>(&without, no_escape));
        assert_eq!(encode_in::<10>(&with, no_escape), encode_in::<10>(&without, no_escape));
    }
    assert_eq!(text_of(&with, false), "[\"a\",{\"y\":null}]");
}

#[test]
fn top_level_undefined_sets_error_and_writes_nothing() {
    let (bytes, error) = encode_in::<16>(&TachyonValue::Undefined, false);
    assert!(error);
    assert_eq!(bytes, Vec::<u8>::new());
    let mut b = TachyonBuffer::<16>::default();
    b.write(b"ab");
    TachyonValue::Undefined.encode(&mut b, true);
    assert!(b.has_error());
    assert_eq!(b.as_slice(), b"ab");
}

#[test]
fn nested_structures() {
    let v = object(vec![
        ("list", TachyonValue::Array(vec![
            TachyonValue::True,
            TachyonValue::Array(vec![]),
            object(vec![("deep", TachyonValue::String("q\"q"))]),
        ])),
        ("n", TachyonValue::Null),
    ]);
    assert_eq!(text_of(&v, false), "{\"list\":[true,[],{\"deep\":\"q\\\"q\"}],\"n\":null}");
    assert_eq!(text_of(&v, true), "{\"list\":[true,[],{\"deep\":\"q\"q\"}],\"n\":null}");
}

#[test]
fn encode_appends_to_what_the_buffer_holds() {
    let mut b = TachyonBuffer::<32>::default();
    b.write(b"x=");
    TachyonValue::Array(vec![TachyonValue::True]).encode(&mut b, false);
    TachyonValue::Null.encode(&mut b, false);
    assert_eq!(b.as_slice(), b"x=[true]null");
    assert!(!b.has_error());
}

#[test]
fn tree_that_fits_exactly_sets_no_error() {
    let v = object(vec![("a", TachyonValue::String("x")), ("c", TachyonValue::Number("1.5"))]);
    let (bytes, error) = encode_in::<17>(&v, false);
    assert!(!error);
    assert_eq!(bytes, b"{\"a\":\"x\",\"c\":1.5}".to_vec());
    let (bytes, error) = encode_in::<17>(&v, true);
    assert!(!error);
    assert_eq!(bytes, b"{\"a\":\"x\",\"c\":1.5}".to_vec());
}

#[test]
fn tree_one_byte_too_long_sets_error_and_keeps_a_prefix() {
    let v = object(vec![("a", TachyonValue::String("x")), ("c", TachyonValue::Number("1.5"))]);
    let full = b"{\"a\":\"x\",\"c\":1.5}";
    for no_escape in [false, true] {
        let (bytes, error) = encode_in::<16>(&v, no_escape);
        assert!(error);
        assert_eq!(bytes, full[..16].to_vec());
    }
}

#[test]
fn overflow_at_every_capacity_leaves_a_prefix_within_capacity() {
    let v = object(vec![
        ("key", TachyonValue::Array(vec![
            TachyonValue::String("a\"\n\u{1}b"),
            TachyonValue::Undefined,
            TachyonValue::Number("12.25"),
            TachyonValue::False,
        ])),
        ("thirteen_keys", TachyonValue::String("sevenby")),
    ]);
    for no_escape in [false, true] {
        let full = text_of(&v, no_escape).into_bytes();
        let at = |n: usize| -> (Vec<u8>, bool) {
            match n {
                0 => encode_in::<0>(&v, no_escape),
                1 => encode_in::<1>(&v, no_escape),
                2 => encode_in::<2>(&v, no_escape),
                5 => encode_in::<5>(&v, no_escape),
                7 => encode_in::<7>(&v, no_escape),
                8 => encode_in::<8>(&v, no_escape),
                13 => encode_in::<13>(&v, no_escape),
                20 => encode_in::<20>(&v, no_escape),
                33 => encode_in::<33>(&v, no_escape),
                48 => encode_in::<48>(&v, no_escape),
                _ => unreachable!(),
            }
        };
        for n in [0usize, 1, 2, 5, 7, 8, 13, 20, 33, 48] {
            let (bytes, error) = at(n);
            assert!(n < full.len());
            assert!(error);
            assert!(bytes.len() <= n);
            assert_eq!(bytes, full[..bytes.len()].to_vec());
        }
    }
}

#[test]
fn nothing_is_written_after_the_first_write_that_did_not_fit() {
    let v = TachyonValue::Array(vec![
        TachyonValue::String("long payload"),
        TachyonValue::True,
    ]);
    let (bytes, error) = encode_in::<8>(&v, true);
    assert!(error);
    assert_eq!(bytes, b"[\"".to_vec());
    let (bytes, error) = encode_in::<8>(&v, false);
    assert!(error);
    assert_eq!(bytes, b"[\"long p".to_vec());
}

#[test]
fn a_write_that_does_not_fit_is_not_written_in_part() {
    let v = TachyonValue::Array(vec![TachyonValue::False]);
    let (bytes, error) = encode_in::<4>(&v, false);
    assert!(error);
    assert_eq!(bytes, b"[".to_vec());
    let v = TachyonValue::String("\u{1}");
    let (bytes, error) = encode_in::<6>(&v, false);
    assert!(error);
    assert_eq!(bytes, b"\"".to_vec());
}

#[test]
fn encode_into_a_buffer_in_error_writes_nothing() {
    let mut b = TachyonBuffer::<32>::default();
    b.write(b"ab");
    b.set_error();
    object(vec![("a", TachyonValue::True)]).encode(&mut b, false);
    assert!(b.has_error());
    assert_eq!(b.as_slice(), b"ab");
}

#[test]
fn reset_then_encode_equals_encode_into_a_fresh_buffer() {
    let first = TachyonValue::Array(vec![TachyonValue::String("a long first document"), TachyonValue::True]);
    let second = object(vec![("k", TachyonValue::String("v\n")), ("n", TachyonValue::Number("2.5"))]);
    for no_escape in [false, true] {
        let mut used = TachyonBuffer::<32>::default();
        first.encode(&mut used, no_escape);
        used.reset_pos();
        second.encode(&mut used, no_escape);
        let mut fresh = TachyonBuffer::<32>::default();
        second.encode(&mut fresh, no_escape);
        assert_eq!(used.as_slice(), fresh.as_slice());
        assert_eq!(used.has_error(), fresh.has_error());
        assert!(!used.has_error());
    }
}

#[test]
fn reset_after_overflow_then_encode_equals_fresh() {
    let big = TachyonValue::String("this text does not fit into sixteen bytes");
    let small = TachyonValue::Array(vec![TachyonValue::Null, TachyonValue::Null]);
    let mut used = TachyonBuffer::<16>::default();
    big.encode(&mut used, false);
    assert!(used.has_error());
    used.reset_pos();
    small.encode(&mut used, false);
    let mut fresh = TachyonBuffer::<16>::default();
    small.encode(&mut fresh, false);
    assert_eq!(used.as_slice(), b"[null,null]");
    assert_eq!(used.as_slice(), fresh.as_slice());
    assert_eq!(used.has_error(), fresh.has_error());
}

#[test]
fn is_undefined_tells_the_marker_apart() {
    assert!(TachyonValue::Undefined.is_undefined());
    assert!(!TachyonValue::Null.is_undefined());
    assert!(!TachyonValue::String("").is_undefined());
    assert!(!TachyonValue::Array(vec![TachyonValue::Undefined]).is_undefined());
}

#[test]
fn escaped_string_round_trips_through_a_json_parser() {
    let mut payload = String::new();
    for c in 0u8..0x20 {
        payload.push(c as char);
    }
    payload.push('"');
    payload.push('\\');
    payload.push_str("plain / text \u{7f} h\u{e9} \u{4e16} \u{1f600}");
    let v = TachyonValue::String(&payload);
    let (bytes, error) = encode_in::<512>(&v, false);
    assert!(!error);
    let parsed: serde_json::Value = serde_json::from_slice(&bytes).unwrap();
    assert_eq!(parsed.as_str(), Some(payload.as_str()));
}

#[test]
fn each_single_byte_string_round_trips_through_a_json_parser() {
    for c in 0u8..0x80 {
        let payload = String::from_utf8(vec![c]).unwrap();
        let v = TachyonValue::String(&payload);
        let (bytes, error) = encode_in::<16>(&v, false);
        assert!(!error);
        let parsed: serde_json::Value = serde_json::from_slice(&bytes).unwrap();
        assert_eq!(parsed.as_str(), Some(payload.as_str()));
    }
}

#[test]
fn output_of_a_fitting_tree_parses_as_json() {
    let mut d1 = ryu::Buffer::new();
    let mut d2 = ryu::Buffer::new();
    let mut d3 = ryu::Buffer::new();
    let v = object(vec![
        ("name", TachyonValue::String("line\nbreak \"quoted\" back\\slash")),
        ("skip", TachyonValue::Undefined),
        ("list", TachyonValue::Array(vec![
            TachyonValue::Number(d1.format(1.5f64)),
            TachyonValue::Undefined,
            TachyonValue::Number(d2.format(-1e-7f64)),
            TachyonValue::Number(d3.format(1e300f64)),
            TachyonValue::True,
            TachyonValue::False,
            TachyonValue::Null,
            TachyonValue::Array(vec![]),
            object(vec![]),
        ])),
    ]);
    let (bytes, error) = encode_in::<256>(&v, false);
    assert!(!error);
    assert!(!bytes.contains(&b' ') || bytes.iter().filter(|&&c| c == b' ').count() == 2);
    let parsed: serde_json::Value = serde_json::from_slice(&bytes).unwrap();
    assert_eq!(parsed["name"].as_str(), Some("line\nbreak \"quoted\" back\\slash"));
    assert!(parsed.get("skip").is_none());
    let list = parsed["list"].as_array().unwrap();
    assert_eq!(list.len(), 8);
    assert_eq!(list[0].as_f64(), Some(1.5));
    assert_eq!(list[1].as_f64(), Some(-1e-7));
    assert_eq!(list[2].as_f64(), Some(1e300));
    assert_eq!(list[3].as_bool(), Some(true));
    assert_eq!(list[4].as_bool(), Some(false));
    assert!(list[5].is_null());
    assert_eq!(list[6].as_array().map(|a| a.len()), Some(0));
    assert_eq!(list[7].as_object().map(|o| o.len()), Some(0));
}

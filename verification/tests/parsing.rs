use json_ink::parsers::bool::{IncJsonBool, JsonBool};
use json_ink::parsers::number::{DecimalPart, JsonNumber};
use json_ink::parsers::object::JsonObject;
use json_ink::parsers::string::{IncJsonString, JsonString};
use json_ink::parsers::{JsonInk, JsonParsable, JsonValue};
use json_ink::string_reader::StringReader;

fn parts(chunks: &[&str]) -> Option<JsonValue> {
    let mut parser = JsonInk::new();
    for chunk in chunks {
        parser.parse_part(chunk);
    }
    parser.take()
}

fn num(integer_part: u64, value: u64, digit_count: u64, is_negative: bool) -> JsonValue {
    JsonValue::Number(JsonNumber { integer_part, decimal_part: DecimalPart { value, digit_count }, is_negative })
}

fn string(s: &str) -> JsonValue {
    JsonValue::String(JsonString(s.to_string()))
}

#[test]
fn complete_value_is_kept() {
    let mut parser = JsonInk::new();
    parser.parse_part("true,");
    assert_eq!(parser.get(), &Some(JsonValue::Bool(JsonBool(true))));
    parser.parse_part("[1, 2]");
    assert_eq!(parser.get(), &Some(JsonValue::Bool(JsonBool(true))));
    parser.parse_part("");
    assert_eq!(parser.take(), Some(JsonValue::Bool(JsonBool(true))));
}

#[test]
fn empty_chunk_changes_nothing() {
    let mut parser = JsonInk::new();
    parser.parse_part("[1, \"ab");
    let before = format!("{:?}", parser.get());
    parser.parse_part("");
    assert_eq!(format!("{:?}", parser.get()), before);
    let mut parser = JsonInk::new();
    parser.parse_part("");
    assert_eq!(parser.get(), &None);
}

#[test]
fn whitespace_holds_no_value() {
    assert_eq!(JsonInk::parse(" \t\r\n "), None);
    assert_eq!(parts(&["  ", "\n"]), None);
}

#[test]
fn literal_split_anywhere() {
    for k in 1..=4 {
        let (a, b) = "true".split_at(k);
        assert_eq!(parts(&[a, &format!("{}]", b)]), Some(JsonValue::Bool(JsonBool(true))));
    }
    for k in 1..=5 {
        let (a, b) = "false".split_at(k);
        assert_eq!(parts(&[a, &format!("{},", b)]), Some(JsonValue::Bool(JsonBool(false))));
    }
    for k in 1..=4 {
        let (a, b) = "null".split_at(k);
        assert_eq!(parts(&[a, &format!("{}\n", b)]), JsonInk::parse("null\n"));
    }
}

#[test]
fn string_split_anywhere() {
    let whole = "\"h\u{e9}llo w\u{f6}rld\" ";
    let expected = Some(string("h\u{e9}llo w\u{f6}rld"));
    assert_eq!(JsonInk::parse(whole), expected);
    for cut in 1..whole.len() - 1 {
        if whole.is_char_boundary(cut) {
            let (a, b) = whole.split_at(cut);
            assert_eq!(parts(&[a, b]), expected, "cut at {}", cut);
        }
    }
}

#[test]
fn string_cut_after_backslash_differs() {
    assert_eq!(JsonInk::parse(r#""a\"b""#), Some(string(r#"a\"b"#)));
    assert_eq!(parts(&[r#""a\"#, r#""b""#]), Some(string(r#"a\"#)));
}

#[test]
fn incomplete_string_keeps_its_text() {
    assert_eq!(
        JsonInk::parse("\"abc"),
        Some(JsonValue::IncString(IncJsonString(Some("abc".to_string()))))
    );
}

#[test]
fn array_continuation_drops_leading_whitespace() {
    assert_eq!(
        JsonInk::parse(r#"["a b"]"#),
        Some(JsonValue::Array(json_ink::parsers::array::JsonArray(vec![string("a b")])))
    );
    assert_eq!(
        parts(&[r#"["a"#, r#" b"]"#]),
        Some(JsonValue::Array(json_ink::parsers::array::JsonArray(vec![string("ab")])))
    );
}

#[test]
fn numbers_keep_their_parts() {
    assert_eq!(JsonInk::parse("-12.034,"), Some(num(12, 34, 3, true)));
    assert_eq!(JsonInk::parse("7]"), Some(num(7, 0, 0, false)));
    assert_eq!(JsonInk::parse("18446744073709551615}"), Some(num(u64::MAX, 0, 0, false)));
    assert_eq!(parts(&["", "-", "10", ".3,"]), Some(num(10, 3, 1, true)));
}

#[test]
fn invalid_values() {
    assert_eq!(JsonInk::parse("tx"), Some(JsonValue::Invalid("x".to_string())));
    assert_eq!(JsonInk::parse("nul!"), Some(JsonValue::Invalid("ul!".to_string())));
    assert_eq!(JsonInk::parse("1.2.3"), Some(JsonValue::Invalid("1.2.".to_string())));
    assert_eq!(JsonInk::parse("5-"), Some(JsonValue::Invalid("5-".to_string())));
    assert_eq!(
        JsonInk::parse("10\u{e9}"),
        Some(JsonValue::Invalid("incomplete utf-8 byte sequence from index 2".to_string()))
    );
}

#[test]
fn no_value_starts_here() {
    assert_eq!(JsonInk::parse("x"), None);
    assert_eq!(JsonInk::parse("  }"), None);
}

#[test]
fn bool_waits_for_a_separator() {
    assert_eq!(JsonInk::parse("true"), Some(JsonValue::IncBool(IncJsonBool::True(4))));
    assert_eq!(JsonInk::parse("fa"), Some(JsonValue::IncBool(IncJsonBool::False(2))));
    assert_eq!(parts(&["true", ","]), Some(JsonValue::Bool(JsonBool(true))));
}

#[test]
fn repeated_key_keeps_its_place() {
    let v = JsonInk::parse(r#"{"a": 1, "b": 2, "a": 3}"#).unwrap();
    match v {
        JsonValue::Object(o) => {
            assert_eq!(o.0.len(), 2);
            let (k0, v0) = o.0.get_index(0).unwrap();
            assert_eq!(k0, "a");
            assert_eq!(v0, &num(3, 0, 0, false));
            let (k1, v1) = o.0.get_index(1).unwrap();
            assert_eq!(k1, "b");
            assert_eq!(v1, &num(2, 0, 0, false));
            assert!(o.0.get_index(2).is_none());
        }
        other => panic!("not an object: {:?}", other),
    }
}

#[test]
fn unquoted_keys() {
    let v = JsonInk::parse("{ab: true, c:null}").unwrap();
    let expected: JsonValue = JsonObject::new(vec![
        ("ab", JsonValue::Bool(JsonBool(true))),
        ("c", JsonValue::Null(json_ink::parsers::null::JsonNull)),
    ])
    .into();
    assert_eq!(v, expected);
}

#[test]
fn object_split_in_key_and_value() {
    let expected: JsonValue =
        JsonObject::new(vec![("key", string("value")), ("n", num(1, 5, 1, false))]).into();
    assert_eq!(parts(&[r#"{"k"#, r#"ey": "va"#, r#" lue", "n": 1"#, ".5}"]), Some(expected));
}

#[test]
fn finish_closes_values() {
    assert_eq!(IncJsonBool::False(2).finish(), JsonValue::Bool(JsonBool(false)));
    assert_eq!(IncJsonString(Some("x".to_string())).finish(), string("x"));
}

#[test]
fn parse_goes_on_from_the_reader() {
    let mut sr = StringReader::new("ue, 3");
    let v = IncJsonBool::True(2).parse(&mut sr);
    assert_eq!(v, JsonValue::Bool(JsonBool(true)));
    assert_eq!(sr.curr_index, 2);
}

#[test]
fn number_split_anywhere() {
    let whole = "-12.034,";
    let expected = Some(num(12, 34, 3, true));
    assert_eq!(JsonInk::parse(whole), expected);
    for k in 1..whole.len() - 1 {
        let (a, b) = whole.split_at(k);
        assert_eq!(parts(&[a, b]), expected, "cut at {}", k);
    }
    for k in 1..4 {
        let (a, b) = ".75]".split_at(k);
        assert_eq!(parts(&[a, b]), Some(num(0, 75, 2, false)), "cut at {}", k);
    }
}

#[test]
fn literal_read_past_its_length_ends_at_a_separator() {
    let mut sr = StringReader::new(",");
    let v = IncJsonBool::True(5).parse(&mut sr);
    assert_eq!(v, JsonValue::Bool(JsonBool(true)));
    assert_eq!(sr.curr_index, 0);
    let mut sr = StringReader::new("]");
    let v = json_ink::parsers::null::IncJsonNull(7).parse(&mut sr);
    assert_eq!(v, JsonValue::Null(json_ink::parsers::null::JsonNull));
}

#[test]
fn checked_chunk_reads_like_parse_part() {
    let mut checked = JsonInk::new();
    let mut plain = JsonInk::new();
    for chunk in ["{\"a\": [1", "0.5, tr", "ue], \"b\"", ": null}"] {
        assert!(checked.try_parse_part(chunk));
        plain.parse_part(chunk);
        assert_eq!(checked.get(), plain.get());
    }
    assert!(matches!(checked.take(), Some(JsonValue::Object(_))));
}

#[test]
fn checked_chunk_refuses_what_the_parser_cannot_read() {
    let mut parser = JsonInk::new();
    assert!(!parser.try_parse_part("123456789012345678901234567890,"));
    assert_eq!(parser.get(), &None);

    let mut parser = JsonInk::new();
    assert!(!parser.try_parse_part("{\",\": 1}"));

    let mut parser = JsonInk::new();
    assert!(!parser.try_parse_part("{\"a\": true x}"));

    let mut parser = JsonInk::new();
    assert!(parser.try_parse_part("[0.12"));
    assert!(!parser.try_parse_part("99999999999999999999999]"));
}

#[test]
fn array_keeps_its_children_across_chunks() {
    let mut parser = JsonInk::new();
    parser.parse_part("[1, \"a");
    match parser.get() {
        Some(JsonValue::IncArray(a)) => {
            assert_eq!(a.0.len(), 2);
            assert_eq!(a.0[0], num(1, 0, 0, false));
        }
        other => panic!("unexpected {:?}", other),
    }
    parser.parse_part("b\", 2]");
    match parser.take() {
        Some(JsonValue::Array(a)) => {
            assert_eq!(a.0, vec![num(1, 0, 0, false), string("ab"), num(2, 0, 0, false)]);
        }
        other => panic!("unexpected {:?}", other),
    }
}

#[test]
fn object_keeps_its_keys_across_chunks() {
    let mut parser = JsonInk::new();
    parser.parse_part("{\"a\": 1, \"b\": tr");
    parser.parse_part("ue, \"a\": 2}");
    match parser.take() {
        Some(JsonValue::Object(JsonObject(map))) => {
            assert_eq!(map.len(), 2);
            let (k0, v0) = map.get_index(0).unwrap();
            let (k1, v1) = map.get_index(1).unwrap();
            assert_eq!((k0.as_str(), v0), ("a", &num(2, 0, 0, false)));
            assert_eq!((k1.as_str(), v1), ("b", &JsonValue::Bool(JsonBool(true))));
        }
        other => panic!("unexpected {:?}", other),
    }
}

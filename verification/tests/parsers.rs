use json_ink::parsers::array::JsonArray;
use json_ink::parsers::number::{DecimalPart, IncJsonNumber, JsonNumber};
use json_ink::parsers::null::IncJsonNull;
use json_ink::parsers::object::{IncJsonObject, IncProperty, PropertyKey};
use json_ink::parsers::{JsonInk, JsonValue};

/// A value to compare parse results with, numbers as `f64`.
#[derive(Debug, PartialEq, Clone)]
enum V {
    Obj(Vec<(String, V)>),
    Arr(Vec<V>),
    Str(String),
    Num(f64),
    Bool(bool),
    Null,
    Invalid(String),
    Incomplete(String),
}

fn number_to_f64(n: &JsonNumber) -> f64 {
    let val = n.integer_part as f64
        + (n.decimal_part.value as f64 / 10u64.pow(n.decimal_part.digit_count as u32) as f64);
    let neg_multiplier = n.is_negative as i64 as f64 * -2. + 1.;
    val * neg_multiplier
}

fn conv(v: &JsonValue) -> V {
    match v {
        JsonValue::Object(o) => {
            let mut entries = Vec::new();
            for i in 0..o.0.len() {
                let (k, v) = o.0.get_index(i).unwrap();
                entries.push((k.clone(), conv(v)));
            }
            entries.sort_by(|a, b| a.0.cmp(&b.0));
            V::Obj(entries)
        }
        JsonValue::Array(a) => V::Arr(a.0.iter().map(conv).collect()),
        JsonValue::String(s) => V::Str(s.0.clone()),
        JsonValue::Number(n) => V::Num(number_to_f64(n)),
        JsonValue::Bool(b) => V::Bool(b.0),
        JsonValue::Null(_) => V::Null,
        JsonValue::Invalid(s) => V::Invalid(s.clone()),
        other => V::Incomplete(format!("{:?}", other)),
    }
}

fn parse(s: &str) -> Option<V> {
    JsonInk::parse(s).as_ref().map(conv)
}

fn object(vals: Vec<(&str, V)>) -> V {
    let mut entries: Vec<(String, V)> = Vec::new();
    for (k, v) in vals {
        if let Some(e) = entries.iter_mut().find(|e| e.0 == k) {
            e.1 = v;
        } else {
            entries.push((k.to_string(), v));
        }
    }
    entries.sort_by(|a, b| a.0.cmp(&b.0));
    V::Obj(entries)
}

fn array(vals: Vec<V>) -> V {
    V::Arr(vals)
}

fn string(s: &str) -> V {
    V::Str(s.to_string())
}

fn number(x: f64) -> V {
    V::Num(x)
}

fn boolean(b: bool) -> V {
    V::Bool(b)
}

fn split_parse(parts: &[&str]) -> Option<JsonValue> {
    let mut parser = JsonInk::new();
    for part in parts {
        parser.parse_part(part);
    }
    parser.take()
}

/// Parsing in parts gives what parsing the joined parts gives.
fn assert_split_same(parts: &[&str]) {
    let split = split_parse(parts);
    let whole = JsonInk::parse(&parts.join(""));
    assert_eq!(split.as_ref().map(conv), whole.as_ref().map(conv), "split == single");
}

/// Parsing in parts and parsing the joined parts both give `expected`.
fn assert_split_gives(parts: &[&str], expected: V) {
    let split = split_parse(parts).as_ref().map(conv);
    let whole = JsonInk::parse(&parts.join("")).as_ref().map(conv);
    assert_eq!(whole, Some(expected.clone()), "normal == intended");
    assert_eq!(split, Some(expected), "split == intended");
    assert_eq!(split, whole, "split == normal");
}

#[test]
fn empty() {
    assert_eq!(JsonInk::parse(r#""#), None);
    assert_eq!(JsonInk::parse(r#"      "#), None);
    assert_eq!(JsonInk::parse("   \t\t\t\t\n\t\t\n\t\t\t,}\n\t\t\n\t\t\t "), None);
}

#[test]
fn object_equal() {
    assert_eq!(parse(r#"{}"#), Some(object(vec![])));
    assert_eq!(
        parse("\n\t\t\t\t{\n\t\t\t\t\t\"prop\": true\n\t\t\t\t}\n\t\t\t"),
        Some(object(vec![("prop", boolean(true))]))
    );
    assert_eq!(
        parse("\n\t\t\t\t{\n\t\t\t\t\t\"prop\": true,\n\t\t\t\t}\n\t\t\t"),
        Some(object(vec![("prop", boolean(true))]))
    );
    assert_eq!(
        parse("\n\t\t\t\t{\n\t\t\t\t\t\"prop\": false\n\t\t\t\t}\n\t\t\t"),
        Some(object(vec![("prop", boolean(false))]))
    );
    assert_eq!(
        parse("\n\t\t\t\t{\n\t\t\t\t\t\"prop\": false,\n\t\t\t\t}\n\t\t\t"),
        Some(object(vec![("prop", boolean(false))]))
    );
    assert_eq!(
        parse("\n\t\t\t\t{\n\t\t\t\t\t\"\u{2764}\u{fe0f}\": false,\n\t\t\t\t}\n\t\t\t"),
        Some(object(vec![("\u{2764}\u{fe0f}", boolean(false))]))
    );
    assert_eq!(
        parse("\n\t\t\t\t{\n\t\t\t\t\t\"prop\": \"\u{2764}\u{fe0f}\",\n\t\t\t\t\t\"prop2\": null\n\t\t\t\t}\n\t\t\t"),
        Some(object(vec![("prop", string("\u{2764}\u{fe0f}")), ("prop2", V::Null)]))
    );
}

#[test]
fn object_not_equal() {
    assert_ne!(parse(r#"{"prop": true}"#), Some(object(vec![("prop2", boolean(true))])));
}

#[test]
fn array_equal() {
    assert_eq!(parse("\n\t\t\t[]\n\t\t\t"), Some(array(vec![])));
    assert_eq!(parse("\n\t\t\t[\"hello\"]\n\t\t\t"), Some(array(vec![string("hello")])));
    assert_eq!(parse("\n\t\t\t[\n\t\t\t\t{}\n\t\t\t]\n\t\t\t"), Some(array(vec![object(vec![])])));
    assert_eq!(
        parse(
            "\n\t\t\t[\n\t\t\t\t{\n\t\t\t\t\t\"prop\": \"str\",\n\t\t\t\t\t\"val\": 10,\n\t\t\t\t},\n\t\t\t\t-5.3,\n\t\t\t\t-.2,\n\t\t\t\t.9,\n\t\t\t\t[\n\t\t\t\t\t{\n\t\t\t\t\t\t\"val\": null\n\t\t\t\t\t}\n\t\t\t\t],\n\t\t\t\t15.3,\n\t\t\t]\n\t\t\t"
        ),
        Some(array(vec![
            object(vec![("prop", string("str")), ("val", number(10.))]),
            number(-5.3),
            number(-0.2),
            number(0.9),
            array(vec![object(vec![("val", V::Null)])]),
            number(15.3),
        ]))
    );
    assert_eq!(parse("[\"\u{2764}\u{fe0f}\"]"), Some(array(vec![string("\u{2764}\u{fe0f}")])));
}

#[test]
fn string_equal() {
    assert_eq!(parse(r#""str""#), Some(string("str")));
    assert_eq!(parse("\"\u{2764}\u{fe0f}\""), Some(string("\u{2764}\u{fe0f}")));
}

#[test]
fn string_not_equal() {
    assert_ne!(parse(r#""str""#), Some(string("str2")));
}

#[test]
fn number_equal() {
    assert_eq!(
        JsonInk::parse(r#"10.5"#),
        Some(
            IncJsonNumber {
                integer_part: 10,
                decimal_part: DecimalPart { value: 5, digit_count: 1 },
                is_negative: false,
                dot_index: Some(2),
                start_str_index: 0,
            }
            .into()
        )
    );
    assert_eq!(
        JsonInk::parse(r#".5"#),
        Some(
            IncJsonNumber {
                integer_part: 0,
                decimal_part: DecimalPart { value: 5, digit_count: 1 },
                is_negative: false,
                dot_index: Some(-1),
                start_str_index: 0,
            }
            .into()
        )
    );
    assert_eq!(parse(r#"10.5,"#), Some(number(10.5)));
    assert_eq!(parse(r#".5}"#), Some(number(0.5)));
    assert_eq!(parse(r#"-.5]"#), Some(number(-0.5)));
    assert_eq!(parse(r#"0.3,"#), Some(number(0.3)));
    assert_eq!(parse(r#"-0.7}"#), Some(number(-0.7)));
    assert_eq!(parse(r#"100]"#), Some(number(100.)));
}

#[test]
fn number_not_equal() {
    assert_ne!(parse(r#"hello"#), Some(number(10.5)));
    assert_ne!(parse(r#"10g"#), Some(number(10.)));
}

#[test]
fn number_invalid() {
    assert_eq!(JsonInk::parse(r#"10g"#), Some(JsonValue::Invalid("10g".into())));
    assert_eq!(JsonInk::parse(r#"-a"#), Some(JsonValue::Invalid("-a".into())));
    assert_eq!(JsonInk::parse(r#".btasf"#), Some(JsonValue::Invalid(".b".into())));
    assert_eq!(JsonInk::parse(r#"10.52m"#), Some(JsonValue::Invalid("10.52m".into())));
}

#[test]
fn bool_equal() {
    assert_eq!(parse(r#"true,"#), Some(boolean(true)));
    assert_eq!(parse(r#"false,"#), Some(boolean(false)));
}

#[test]
fn bool_not_equal() {
    assert_ne!(parse(r#"true"#), Some(boolean(true)));
    assert_ne!(parse(r#"false"#), Some(boolean(false)));
}

#[test]
fn null_equal() {
    assert_eq!(parse(r#"null,"#), Some(V::Null));
    assert_eq!(JsonInk::parse(r#"null"#), Some(JsonValue::IncNull(IncJsonNull(4))));
}

#[test]
fn split_object() {
    assert_split_gives(
        &["{", r#""prop""#, ":", "\t10", ".5,", "}"],
        object(vec![("prop", number(10.5))]),
    );
    assert_split_gives(
        &[r#"{"prop"#, r#"":"#, "[", ".5,", "]}"],
        object(vec![("prop", array(vec![number(0.5)]))]),
    );
    let expected: JsonValue = IncJsonObject::new(
        vec![],
        Some(IncProperty {
            key: PropertyKey::Complete("prop two".to_string()),
            value: Box::new(None),
            found_colon: false,
        }),
    )
    .into();
    let parts = [r#"{"prop"#, r#" two"}"#];
    let split = split_parse(&parts);
    let whole = JsonInk::parse(&parts.join(""));
    assert_eq!(whole.as_ref(), Some(&expected), "normal == intended");
    assert_eq!(split.as_ref(), Some(&expected), "split == intended");
    assert_eq!(split, whole, "split == normal");
    assert_split_gives(&["{", r#""hello"#, r#"": true}"#], object(vec![("hello", boolean(true))]));
    assert_split_gives(
        &[r#"{"so"#, "me", "\"", ": {", r#""arr": [-.33, "str"]"#, "}}"],
        object(vec![("some", object(vec![("arr", array(vec![number(-0.33), string("str")]))]))]),
    );
}

#[test]
fn split_array() {
    assert_split_same(&["[", "10.5,", r#""str"]"#]);
    assert_split_gives(
        &["[", r#""he"#, "lllllloooo", r#"oo"]"#],
        array(vec![string("helllllloooooo")]),
    );
}

#[test]
fn split_string() {
    assert_split_same(&[r#""  hello "#, " wo", r#"rld  ","#]);
}

#[test]
fn split_number() {
    assert_split_same(&["", "-", "10", ".3,"]);
}

#[test]
fn split_bool() {
    assert_split_same(&["tr", "ue,"]);
}

#[test]
fn split_null() {
    assert_split_same(&["nu", "ll"]);
}

#[test]
fn array_new_holds_its_values() {
    let a = JsonArray::new(vec![JsonValue::Invalid("x".to_string())]);
    assert_eq!(a.take_children(), vec![JsonValue::Invalid("x".to_string())]);
}

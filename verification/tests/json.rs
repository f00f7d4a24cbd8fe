use kafq::json::{Json, JsonObject};
use kafq::output::write_jsonl;

fn parse(text: &str) -> Json {
    Json::parse(text.as_bytes()).expect("valid JSON")
}

#[test]
fn values_are_read() {
    assert_eq!(parse("null"), Json::Null);
    assert_eq!(parse(" true "), Json::Bool(true));
    assert_eq!(parse("18446744073709551615"), Json::Unsigned(u64::MAX));
    assert_eq!(parse("-9223372036854775808"), Json::Negative(i64::MIN));
    assert_eq!(parse("\"a\\u00e9\""), Json::Str("aé".to_string()));
    assert_eq!(parse("[1,[]]"), Json::Array(vec![Json::Unsigned(1), Json::Array(vec![])]));
    assert!(matches!(parse("1.5"), Json::Float(_)));
    assert!(matches!(parse("18446744073709551616"), Json::Float(_)));
}

#[test]
fn errors_are_told() {
    assert_eq!(
        Json::parse(b"{").unwrap_err().message,
        "EOF while parsing an object at line 1 column 1"
    );
    assert!(Json::parse(b"").is_err());
    assert!(Json::parse(b"\"\xff\"").is_err());
}

#[test]
fn objects_are_ordered_by_name() {
    let value = parse("{\"b\":1,\"a\":2,\"\u{e9}\":3,\"B\":4,\"a\":5}");
    assert_eq!(value.text(), "{\"B\":4,\"a\":5,\"b\":1,\"\u{e9}\":3}");

    let mut object = JsonObject::new();
    object.insert("b".to_string(), Json::Unsigned(1));
    object.insert("a".to_string(), Json::Null);
    object.insert("c".to_string(), Json::Bool(false));
    object.insert("b".to_string(), Json::Negative(-2));
    assert_eq!(object.get("b"), Some(&Json::Negative(-2)));
    assert_eq!(object.get("d"), None);
    let names: Vec<&str> = object.pairs().iter().map(|pair| pair.0.as_str()).collect();
    assert_eq!(names, vec!["a", "b", "c"]);
    assert_eq!(Json::Object(object).text(), "{\"a\":null,\"b\":-2,\"c\":false}");
}

#[test]
fn texts_are_read_back() {
    for text in [
        "null",
        "[1,-2,\"\\u0000\\n\\\"\\\\\u{2028}\u{1f600}\",{\"a\":{\"b\":[true,false,{}]}}]",
        "{\"k\":18446744073709551615}",
    ] {
        let value = parse(text);
        let written = value.text();
        assert_eq!(written, text);
        assert_eq!(parse(&written), value);
    }
}

#[test]
fn deep_values_are_written_but_only_read_to_a_depth() {
    let nested = |depth: usize| format!("{}{}", "[".repeat(depth), "]".repeat(depth));
    assert_eq!(parse(&nested(127)).text(), nested(127));
    assert!(Json::parse(nested(128).as_bytes()).is_err());

    let mut deep = Json::Null;
    for _ in 0..200 {
        deep = Json::Array(vec![deep]);
    }
    assert!(deep.text().starts_with("[[[["));
}

#[test]
fn a_value_is_one_line() {
    let mut value = JsonObject::new();
    value.insert("a\nb".to_string(), Json::Str("c\r\n\u{b}d\u{1}".to_string()));
    value.insert("e".to_string(), parse("[ 1.5 ,\n { } ]"));
    let mut out = Vec::new();
    write_jsonl(&mut out, &Json::Object(value));
    assert_eq!(
        String::from_utf8(out).unwrap(),
        "{\"a\\nb\":\"c\\r\\n\\u000bd\\u0001\",\"e\":[1.5,{}]}\n"
    );
}

#[test]
fn output_lines_end_with_a_line_feed() {
    let mut out = b"x".to_vec();
    write_jsonl(&mut out, &parse("{\"a\": [1, \"\u{e9}\"]}"));
    assert_eq!(out, "x{\"a\":[1,\"\u{e9}\"]}\n".as_bytes().to_vec());
}

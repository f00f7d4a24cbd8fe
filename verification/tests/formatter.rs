use kafq::formatter::{DecodedRecord, EncodedRecord, Formatter, RecordView};
use kafq::json::Json;
use kafq::wasm_formatter::{DecodeReply, EncodeReply, WasmFormatter};

fn parse(text: &str) -> Json {
    Json::parse(text.as_bytes()).expect("valid JSON")
}

fn view<'a>(
    key: Option<&'a [u8]>,
    value: Option<&'a [u8]>,
    headers: &'a [(String, Vec<u8>)],
) -> RecordView<'a> {
    RecordView { topic: "events", partition: 3, key, value, headers, timestamp: 99 }
}

fn decoded(format: &str, key: Option<&[u8]>, value: Option<&[u8]>) -> String {
    let format = Formatter::open(format).unwrap();
    let headers = vec![
        ("h".to_string(), b"first".to_vec()),
        ("h".to_string(), b"last".to_vec()),
        ("a".to_string(), vec![0xff]),
    ];
    let record = format
        .decode(&view(key, value, &headers), &DecodeReply::NotAsked)
        .unwrap();
    Json::Object(record.fields).text()
}

fn encoded(format: &str, line: &str) -> EncodedRecord {
    Formatter::open(format)
        .unwrap()
        .encode(&parse(line), &EncodeReply::NotAsked)
        .unwrap()
}

#[test]
fn formatters_are_chosen_by_name() {
    assert!(matches!(Formatter::open("json"), Ok(Formatter::Json)));
    assert!(matches!(Formatter::open("raw"), Ok(Formatter::Raw)));
    match Formatter::open("dir/plugin.wasm") {
        Ok(Formatter::Wasm(plugin)) => assert_eq!(plugin.path, "dir/plugin.wasm"),
        other => panic!("{other:?}"),
    }
    assert_eq!(
        Formatter::open("JSON").unwrap_err().message,
        "Unsupported data format \"JSON\" (use json, raw, or a path ending in .wasm)"
    );
}

#[test]
fn json_values_are_decoded() {
    assert_eq!(
        decoded("json", Some(b"u-1"), Some(b"{\"event\": \"login\"}")),
        "{\"headers\":{\"a\":\"\u{fffd}\",\"h\":\"last\"},\"key\":\"u-1\",\"value\":{\"event\":\"login\"}}"
    );
    assert_eq!(
        decoded("json", None, None),
        "{\"headers\":{\"a\":\"\u{fffd}\",\"h\":\"last\"},\"key\":null,\"value\":null}"
    );
}

#[test]
fn json_payloads_must_be_valid() {
    let error = Formatter::Json
        .decode(&view(None, Some(b"nope"), &[]), &DecodeReply::NotAsked)
        .unwrap_err();
    assert_eq!(error.message, "expected ident at line 1 column 2");
}

#[test]
fn raw_values_are_lossy_texts() {
    assert_eq!(
        decoded("raw", Some(b"k\xff"), Some(b"v\xc3\xa9\xff")),
        "{\"headers\":{\"a\":\"\u{fffd}\",\"h\":\"last\"},\"key\":\"k\u{fffd}\",\"value\":\"v\u{e9}\u{fffd}\"}"
    );
    assert!(decoded("raw", None, None).ends_with("\"value\":null}"));
}

#[test]
fn decoded_objects_are_fields_and_other_values_a_field() {
    let record = DecodedRecord::from_json(parse("{\"a\":1}"));
    assert_eq!(Json::Object(record.fields).text(), "{\"a\":1}");
    let record = DecodedRecord::from_json(parse("[1]"));
    assert_eq!(Json::Object(record.fields).text(), "{\"value\":[1]}");
}

#[test]
fn json_messages_are_encoded() {
    let record = encoded(
        "json",
        "{\"key\":\"k\",\"value\":{\"b\":1,\"a\":[null]},\"headers\":{\"z\":\"t\",\"n\":null,\"m\":{\"x\":1}},\"offset\":\"4\"}",
    );
    assert_eq!(record.key, Some(b"k".to_vec()));
    assert_eq!(record.value, Some(b"{\"a\":[null],\"b\":1}".to_vec()));
    assert_eq!(
        record.headers,
        vec![
            ("m".to_string(), b"{\"x\":1}".to_vec()),
            ("n".to_string(), Vec::new()),
            ("z".to_string(), b"t".to_vec()),
        ]
    );
    assert_eq!(record.partition, -1);

    assert_eq!(encoded("json", "{\"value\":\"s\"}").value, Some(b"\"s\"".to_vec()));
    assert_eq!(encoded("json", "{\"value\":null}").value, Some(b"null".to_vec()));
    assert_eq!(encoded("json", "{\"value\":1,\"key\":null}").key, None);
    assert_eq!(encoded("json", "{\"value\":1,\"key\":7}").key, Some(b"7".to_vec()));
    assert!(encoded("json", "{\"value\":1,\"headers\":[1]}").headers.is_empty());
}

#[test]
fn raw_messages_are_encoded() {
    assert_eq!(encoded("raw", "{\"value\":\"s\u{e9}\"}").value, Some("s\u{e9}".as_bytes().to_vec()));
    assert_eq!(encoded("raw", "{\"value\":null}").value, Some(b"null".to_vec()));
    assert_eq!(encoded("raw", "{\"value\":{\"a\": 1}}").value, Some(b"{\"a\":1}".to_vec()));
}

#[test]
fn messages_must_be_objects_with_a_value() {
    let refusal = |line: &str| {
        Formatter::Json
            .encode(&parse(line), &EncodeReply::NotAsked)
            .unwrap_err()
            .message
    };
    assert_eq!(
        refusal("[1]"),
        "produce input line must be a JSON object with a `value` field"
    );
    assert_eq!(
        refusal("{\"key\":\"k\"}"),
        "produce input line is missing the required `value` field"
    );
}

#[test]
fn decoding_undoes_encoding() {
    let cases = [
        ("json", "{\"headers\":{\"a\":\"1\",\"b\":\"\"},\"key\":\"k\u{e9}\",\"value\":{\"x\":[1,-2,null,\"t\"]}}"),
        ("json", "{\"headers\":{},\"key\":null,\"value\":\"text\"}"),
        ("json", "{\"headers\":{},\"key\":\"k\",\"value\":{\"x\":[1.5,-0.25]}}"),
        ("raw", "{\"headers\":{\"a\":\"1\"},\"key\":\"k\",\"value\":\"text\u{1f600}\"}"),
    ];
    for (format, line) in cases {
        let format = Formatter::open(format).unwrap();
        let record = format.encode(&parse(line), &EncodeReply::NotAsked).unwrap();
        let shown = format
            .decode(
                &view(record.key.as_deref(), record.value.as_deref(), &record.headers),
                &DecodeReply::NotAsked,
            )
            .unwrap();
        assert_eq!(Json::Object(shown.fields).text(), line);
    }
}

#[test]
fn components_are_asked_with_the_whole_record() {
    let plugin = WasmFormatter { path: "p.wasm".to_string() };
    let headers = vec![("h".to_string(), vec![1, 2])];
    let request = plugin.decode_request(&view(Some(b"k"), None, &headers));
    assert_eq!(request.topic, "events");
    assert_eq!(request.partition, 3);
    assert_eq!(request.key, Some(b"k".to_vec()));
    assert_eq!(request.value, None);
    assert_eq!(request.headers, headers);
    assert_eq!(request.timestamp, 99);
    assert_eq!(plugin.encode_request(&parse("{\"b\": 1, \"a\": 2}")), "{\"a\":2,\"b\":1}");
    assert_eq!(WasmFormatter::plugin_name(None), "wasm:unknown");
    assert_eq!(WasmFormatter::plugin_name(Some("mine".to_string())), "mine");
}

#[test]
fn answers_of_components_count() {
    let format = Formatter::open("p.wasm").unwrap();
    let decode = |reply: DecodeReply| format.decode(&view(None, Some(b"x"), &[]), &reply);
    let record = decode(DecodeReply::Json("{\"offset\":1,\"x\":2}".to_string())).unwrap();
    assert_eq!(Json::Object(record.fields).text(), "{\"offset\":1,\"x\":2}");
    let record = decode(DecodeReply::Json("7".to_string())).unwrap();
    assert_eq!(Json::Object(record.fields).text(), "{\"value\":7}");
    assert_eq!(
        decode(DecodeReply::Json("{".to_string())).unwrap_err().message,
        "Plugin returned invalid JSON: EOF while parsing an object at line 1 column 1"
    );
    assert_eq!(
        decode(DecodeReply::Error("bad".to_string())).unwrap_err().message,
        "Plugin decode error: bad"
    );
    assert_eq!(
        decode(DecodeReply::Trap("oops".to_string())).unwrap_err().message,
        "Plugin decode trap: oops"
    );

    let encode = |reply: EncodeReply| format.encode(&parse("[]"), &reply);
    let record = encode(EncodeReply::Record(EncodedRecord {
        key: None,
        value: None,
        headers: vec![("h".to_string(), vec![9])],
        partition: 4,
    }))
    .unwrap();
    assert_eq!(record.value, None);
    assert_eq!(record.headers, vec![("h".to_string(), vec![9])]);
    assert_eq!(record.partition, 4);
    assert_eq!(
        encode(EncodeReply::Error("bad".to_string())).unwrap_err().message,
        "Plugin encode error: bad"
    );
    assert_eq!(
        encode(EncodeReply::Trap("oops".to_string())).unwrap_err().message,
        "Plugin encode trap: oops"
    );
}

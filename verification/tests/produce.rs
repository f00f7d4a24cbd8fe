use kafq::commands::produce::{
    batch_records, encode_requests, future_record, parse_batch, parse_static_headers, produce_line,
    read_line, Batch,
};
use kafq::formatter::{EncodedRecord, Formatter};
use kafq::json::Json;
use kafq::wasm_formatter::{EncodeReply, WasmFormatter};

fn parse(text: &str) -> Json {
    Json::parse(text.as_bytes()).expect("valid JSON")
}

#[test]
fn produce_future_record_distinguishes_null_and_empty_payloads() {
    let null_record = future_record("topic", None);
    let empty = [];
    let empty_record = future_record("topic", Some(&empty));

    assert!(null_record.payload.is_none());
    assert_eq!(empty_record.payload.as_deref(), Some(empty.as_slice()));
}

#[test]
fn parse_batch_accepts_i32_partition_boundaries() {
    let format = Formatter::open("json").unwrap();

    for partition in [i32::MIN, i32::MAX] {
        let line = parse(&format!(
            "{{\"topic\":\"topic\",\"partition\":{partition},\"messages\":[]}}"
        ));
        let batch = parse_batch(&line, &format, &vec![]).unwrap();

        assert_eq!(batch.partition, Some(partition));
    }
}

#[test]
fn parse_batch_rejects_partitions_outside_i32_range() {
    let format = Formatter::open("json").unwrap();

    for partition in [i64::from(i32::MIN) - 1, i64::from(i32::MAX) + 1] {
        let line = parse(&format!(
            "{{\"topic\":\"topic\",\"partition\":{partition},\"messages\":[]}}"
        ));

        assert!(
            parse_batch(&line, &format, &vec![]).is_err(),
            "partition {partition} should be rejected"
        );
    }
}

fn refusal(line: &str) -> String {
    parse_batch(&parse(line), &Formatter::Json, &vec![])
        .unwrap_err()
        .message
}

#[test]
fn batch_lines_are_checked() {
    assert_eq!(refusal("[]"), "batch line must be a JSON object");
    assert_eq!(
        refusal("{\"messages\":[]}"),
        "batch line is missing the required string field `topic`"
    );
    assert_eq!(
        refusal("{\"topic\":1,\"messages\":[]}"),
        "batch line is missing the required string field `topic`"
    );
    for partition in ["1.5", "\"0\"", "9223372036854775808", "[]", "true"] {
        assert_eq!(
            refusal(&format!("{{\"topic\":\"t\",\"partition\":{partition}}}")),
            "`partition` must be an integer"
        );
    }
    for partition in ["2147483648", "-2147483649", "9223372036854775807"] {
        assert_eq!(
            refusal(&format!("{{\"topic\":\"t\",\"partition\":{partition}}}")),
            "`partition` must be between -2147483648 and 2147483647"
        );
    }
    assert_eq!(
        refusal("{\"topic\":\"t\"}"),
        "batch line is missing the required array field `messages`"
    );
    assert_eq!(
        refusal("{\"topic\":\"t\",\"messages\":{}}"),
        "batch line is missing the required array field `messages`"
    );
    assert_eq!(
        refusal("{\"topic\":\"t\",\"messages\":[{\"value\":1},{},7]}"),
        "message 1: produce input line is missing the required `value` field"
    );
}

#[test]
fn batches_are_read() {
    let line = parse("{\"topic\":\"t\",\"partition\":null,\"messages\":[{\"value\":\"a\"},{\"value\":2}]}");
    let batch = parse_batch(&line, &Formatter::Raw, &vec![]).unwrap();
    assert_eq!(batch.topic, "t");
    assert_eq!(batch.partition, None);
    let values: Vec<Option<Vec<u8>>> = batch.messages.into_iter().map(|m| m.value).collect();
    assert_eq!(values, vec![Some(b"a".to_vec()), Some(b"2".to_vec())]);
}

#[test]
fn static_headers_are_read() {
    let texts = |list: &[&str]| list.iter().map(|t| t.to_string()).collect::<Vec<String>>();
    assert_eq!(
        parse_static_headers(&texts(&["x-source: cli ", " a :b:c", "e:"])),
        Ok(vec![
            ("x-source".to_string(), b"cli".to_vec()),
            ("a".to_string(), b"b:c".to_vec()),
            ("e".to_string(), Vec::new()),
        ])
    );
    for bad in ["novalue", ":v", " \t:v", ""] {
        assert_eq!(
            parse_static_headers(&texts(&["a:b", bad, "also bad"])).unwrap_err().message,
            format!("Invalid header \"{bad}\"; expected key:value")
        );
    }
}

fn record(headers: &[(&str, &str)], partition: i32) -> EncodedRecord {
    EncodedRecord {
        key: Some(b"k".to_vec()),
        value: None,
        headers: headers
            .iter()
            .map(|(name, value)| (name.to_string(), value.as_bytes().to_vec()))
            .collect(),
        partition,
    }
}

fn names(headers: &Option<Vec<(String, Option<Vec<u8>>)>>) -> Vec<(String, String)> {
    headers
        .iter()
        .flatten()
        .map(|(name, value)| {
            let value = value.clone().expect("a value");
            (name.clone(), String::from_utf8(value).unwrap())
        })
        .collect()
}

#[test]
fn message_headers_take_precedence() {
    let batch = Batch {
        topic: "t".to_string(),
        partition: None,
        messages: vec![
            record(&[("b", "own"), ("b", "again")], -1),
            record(&[], -1),
        ],
    };
    let fixed = vec![
        ("a".to_string(), b"1".to_vec()),
        ("b".to_string(), b"2".to_vec()),
        ("a".to_string(), b"3".to_vec()),
    ];
    let records = batch_records(&batch, &fixed);
    let pair = |a: &str, b: &str| (a.to_string(), b.to_string());
    assert_eq!(
        names(&records[0].headers),
        vec![pair("b", "own"), pair("b", "again"), pair("a", "1")]
    );
    assert_eq!(names(&records[1].headers), vec![pair("a", "1"), pair("b", "2")]);
    assert_eq!(records[0].key, Some(b"k".to_vec()));
    assert_eq!(records[0].payload, None);
    assert_eq!(records[0].topic, "t");

    let plain = batch_records(&batch, &vec![]);
    assert!(plain[1].headers.is_none());
}

#[test]
fn batch_partitions_take_precedence() {
    let mut batch = Batch {
        topic: "t".to_string(),
        partition: Some(5),
        messages: vec![record(&[], 2), record(&[], -1), record(&[], 0)],
    };
    let partitions = |batch: &Batch| {
        batch_records(batch, &vec![])
            .into_iter()
            .map(|r| r.partition)
            .collect::<Vec<Option<i32>>>()
    };
    assert_eq!(partitions(&batch), vec![Some(5), Some(5), Some(5)]);
    batch.partition = None;
    assert_eq!(partitions(&batch), vec![Some(2), None, Some(0)]);
}

#[test]
fn input_lines_are_read() {
    assert!(matches!(read_line("", 1), Ok(None)));
    assert!(matches!(read_line(" \t\u{a0}", 1), Ok(None)));
    assert_eq!(read_line("[1]", 1).unwrap(), Some(parse("[1]")));
    assert_eq!(
        read_line("{", 12).unwrap_err().message,
        "Invalid JSON on line 12: EOF while parsing an object at line 1 column 1"
    );
}

#[test]
fn lines_become_records_in_order() {
    let line = parse(
        "{\"topic\":\"t\",\"partition\":0,\"messages\":[{\"value\":\"a\",\"key\":\"k\"},{\"value\":\"b\"}]}",
    );
    let fixed = vec![("h".to_string(), b"v".to_vec())];
    let records = produce_line(&line, 3, &Formatter::Raw, &vec![], &fixed).unwrap();
    let shown: Vec<(Option<Vec<u8>>, Option<Vec<u8>>, Option<i32>)> = records
        .into_iter()
        .map(|r| (r.key, r.payload, r.partition))
        .collect();
    assert_eq!(
        shown,
        vec![
            (Some(b"k".to_vec()), Some(b"a".to_vec()), Some(0)),
            (None, Some(b"b".to_vec()), Some(0)),
        ]
    );

    assert_eq!(
        produce_line(&parse("7"), 3, &Formatter::Raw, &vec![], &fixed).unwrap_err().message,
        "line 3: batch line must be a JSON object"
    );
}

#[test]
fn components_encode_batches() {
    let format = Formatter::open("p.wasm").unwrap();
    let line = parse("{\"topic\":\"t\",\"messages\":[{\"b\":1,\"a\":2},7]}");
    let plugin = WasmFormatter { path: "p.wasm".to_string() };
    let requests = encode_requests(&plugin, &line).unwrap();
    assert_eq!(requests.topic, "t");
    assert_eq!(requests.messages, vec!["{\"a\":2,\"b\":1}", "7"]);
    assert_eq!(
        encode_requests(&plugin, &parse("{}")).unwrap_err().message,
        "batch line is missing the required string field `topic`"
    );

    let replies = vec![
        EncodeReply::Record(record(&[], 3)),
        EncodeReply::Record(record(&[("h", "v")], -1)),
    ];
    let batch = parse_batch(&line, &format, &replies).unwrap();
    assert_eq!(batch.messages.len(), 2);
    assert_eq!(batch.messages[0].partition, 3);
    assert_eq!(batch.messages[1].headers, vec![("h".to_string(), b"v".to_vec())]);

    let replies = vec![EncodeReply::Error("bad".to_string())];
    assert_eq!(
        parse_batch(&line, &format, &replies).unwrap_err().message,
        "message 0: Plugin encode error: bad"
    );
}

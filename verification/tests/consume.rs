use std::collections::{BTreeMap, HashSet};

use futures::stream;
use futures::{FutureExt, StreamExt};
use kafq::commands::consume::{
    consumer_config, context, exit_code, flush_all, handle_item, handle_message, message_limit,
    pool_size, start_of, wants_decode, Args, Ctx, Flow, Phase, Session,
};
use kafq::commands::produce::{parse_batch, read_line};
use kafq::commands::{Item, KafkaMessage, Signal, SnapshotStop, StartFrom};
use kafq::formatter::Formatter;
use kafq::json::Json;
use kafq::offsets::Offset;
use kafq::wasm_formatter::DecodeReply;
use rdkafka::ClientConfig;

fn message(partition: i32, offset: i64, payload: &str) -> KafkaMessage {
    KafkaMessage {
        partition,
        offset,
        timestamp: None,
        key: None,
        payload: Some(payload.as_bytes().to_vec()),
        headers: None,
    }
}

fn handle_snapshot_offset(offset: i64, high: i64) -> (bool, usize) {
    let format = Formatter::open("raw").expect("raw formatter creation failed");
    let watermarks = BTreeMap::from([(0, (0, high))]);
    let ctx = Ctx {
        topic: "events",
        snapshot: true,
        skip: 0,
        limit: u64::MAX,
        batch_limit: 100,
        watermarks: &watermarks,
        format: &format,
    };
    let message = message(0, offset, "value");
    let mut buckets = BTreeMap::new();
    let mut remaining = HashSet::from([0]);
    let mut index = 0;
    let mut output = Vec::new();

    let flow = handle_message(
        &ctx,
        &message,
        &DecodeReply::NotAsked,
        &mut buckets,
        &mut remaining,
        &mut index,
        &mut output,
    )
    .expect("snapshot message handling failed");
    let bucket_size = buckets.get(&0).map_or(0, Vec::len);
    (matches!(flow, Flow::Stop), bucket_size)
}

#[test]
fn snapshot_excludes_offset_at_captured_high_before_output() {
    let (stopped, bucket_size) = handle_snapshot_offset(10, 10);

    assert!(stopped);
    assert_eq!(bucket_size, 0);
}

#[test]
fn snapshot_includes_last_offset_before_captured_high() {
    let (stopped, bucket_size) = handle_snapshot_offset(9, 10);

    assert!(stopped);
    assert_eq!(bucket_size, 1);
}

#[test]
fn reactive_drain_respects_additional_item_limit() {
    let format = Formatter::Raw;
    let watermarks = BTreeMap::new();
    let ctx = Ctx {
        topic: "events",
        snapshot: false,
        skip: 0,
        limit: u64::MAX,
        batch_limit: 4,
        watermarks: &watermarks,
        format: &format,
    };
    let mut session = Session::new(HashSet::new());
    let first = Signal::Item(Item::Message(message(0, 100, "first")));
    let mut phase = session.advance(&ctx, &first, &DecodeReply::NotAsked).unwrap();
    assert_eq!(phase, Phase::Draining(3));

    let mut stream = stream::iter(0..10);
    let mut handled = 0;
    while let Phase::Draining(_) = phase {
        let signal = match stream.next().now_or_never() {
            Some(Some(offset)) => Signal::Item(Item::Message(message(0, offset, "more"))),
            Some(None) => Signal::Item(Item::Ended),
            None => Signal::Pending,
        };
        phase = session
            .advance(&ctx, &signal, &DecodeReply::NotAsked)
            .expect("ready drain failed");
        handled += 1;
    }

    let stopped = matches!(phase, Phase::Finished(_));
    assert_eq!(handled, 3);
    assert!(!stopped);
}

fn args() -> Args {
    Args {
        topic: "events".to_string(),
        group: None,
        data_format: "json".to_string(),
        output: None,
        from: None,
        count: None,
        skip: 0,
        batch_limit: 100,
        snapshot: false,
    }
}

fn feed(session: &mut Session, ctx: &Ctx<'_>, signal: Signal) -> Phase {
    session.advance(ctx, &signal, &DecodeReply::NotAsked).unwrap()
}

fn text(session: &mut Session) -> String {
    String::from_utf8(session.take_output()).unwrap()
}

#[test]
fn lines_hold_the_record_and_its_place() {
    let format = Formatter::Json;
    let watermarks = BTreeMap::from([(0, (0, 44))]);
    let args = args();
    let ctx = context(&args, &watermarks, &format);
    let mut session = Session::new(HashSet::new());
    let record = KafkaMessage {
        partition: 0,
        offset: 42,
        timestamp: Some(1_780_000_000_000),
        key: Some(b"u-1".to_vec()),
        payload: Some(b"{\"event\":\"login\"}".to_vec()),
        headers: Some(vec![
            ("source".to_string(), Some(b"cli".to_vec())),
            ("empty".to_string(), None),
        ]),
    };
    feed(&mut session, &ctx, Signal::Item(Item::Message(record)));
    feed(&mut session, &ctx, Signal::Pending);
    assert_eq!(
        text(&mut session),
        "{\"messages\":[{\"ahead\":2,\"headers\":{\"empty\":\"\",\"source\":\"cli\"},\"key\":\"u-1\",\
         \"offset\":\"42\",\"timestamp\":\"1780000000000\",\"value\":{\"event\":\"login\"}}],\
         \"partition\":0,\"topic\":\"events\"}\n"
    );
}

#[test]
fn a_session_writes_one_line_for_each_batch() {
    let format = Formatter::Raw;
    let watermarks = BTreeMap::new();
    let args = args();
    let ctx = context(&args, &watermarks, &format);
    let mut session = Session::new(HashSet::new());
    feed(&mut session, &ctx, Signal::Item(Item::Message(message(0, 1, "one\ntwo"))));
    feed(&mut session, &ctx, Signal::Item(Item::Message(message(1, 2, "\n"))));
    feed(&mut session, &ctx, Signal::Pending);
    feed(&mut session, &ctx, Signal::Item(Item::Message(message(0, 3, "three"))));
    feed(&mut session, &ctx, Signal::Sigint);
    let written = text(&mut session);
    assert!(written.ends_with('\n'));
    let lines: Vec<&str> = written.lines().collect();
    assert_eq!(lines.len(), 3);
    let mut read = Vec::new();
    for (i, line) in lines.iter().enumerate() {
        let json = read_line(line, i + 1).unwrap().unwrap();
        let batch = parse_batch(&json, &format, &vec![]).unwrap();
        for record in batch.messages {
            read.push((batch.partition.unwrap(), record.value.unwrap()));
        }
    }
    assert_eq!(
        read,
        vec![
            (0, b"one\ntwo".to_vec()),
            (1, b"\n".to_vec()),
            (0, b"three".to_vec()),
        ]
    );
}

#[test]
fn a_message_fills_the_bucket_of_its_partition_only() {
    let format = Formatter::Raw;
    let watermarks = BTreeMap::new();
    let mut args = args();
    args.batch_limit = 2;
    let ctx = context(&args, &watermarks, &format);
    let mut buckets = BTreeMap::new();
    let mut remaining = HashSet::new();
    let mut index = 0;
    let mut output = Vec::new();
    for (partition, offset, written) in [(0, 1, 0), (1, 2, 0), (0, 3, 1), (0, 4, 1), (1, 5, 2)] {
        handle_message(
            &ctx,
            &message(partition, offset, "v"),
            &DecodeReply::NotAsked,
            &mut buckets,
            &mut remaining,
            &mut index,
            &mut output,
        )
        .unwrap();
        assert!(buckets.values().all(|bucket| bucket.len() < 2));
        assert_eq!(output.iter().filter(|byte| **byte == b'\n').count(), written);
    }
    assert_eq!(buckets.get(&0).map(Vec::len), Some(1));
    assert_eq!(buckets.get(&1).map(Vec::len), Some(0));
}

#[test]
fn consumed_lines_can_be_produced() {
    for name in ["json", "raw"] {
        let format = Formatter::open(name).unwrap();
        let watermarks = BTreeMap::from([(0, (0, 44))]);
        let args = args();
        let ctx = context(&args, &watermarks, &format);
        let mut session = Session::new(HashSet::new());
        let record = KafkaMessage {
            partition: 0,
            offset: 42,
            timestamp: Some(1_780_000_000_000),
            key: Some(b"u-1".to_vec()),
            payload: Some(b"{\"event\":[1,-2,null]}".to_vec()),
            headers: Some(vec![("source".to_string(), Some(b"cli".to_vec()))]),
        };
        feed(&mut session, &ctx, Signal::Item(Item::Message(record)));
        feed(&mut session, &ctx, Signal::Pending);
        let line = Json::parse(text(&mut session).trim().as_bytes()).unwrap();
        let batch = parse_batch(&line, &format, &vec![]).unwrap();
        assert_eq!(batch.partition, Some(0));
        assert_eq!(batch.messages.len(), 1);
        assert_eq!(batch.messages[0].key, Some(b"u-1".to_vec()));
        assert_eq!(batch.messages[0].value, Some(b"{\"event\":[1,-2,null]}".to_vec()));
        assert_eq!(batch.messages[0].headers, vec![("source".to_string(), b"cli".to_vec())]);
    }
}

#[test]
fn the_place_of_a_record_overrides_decoded_fields() {
    let format = Formatter::open("p.wasm").unwrap();
    let watermarks = BTreeMap::new();
    let args = args();
    let ctx = context(&args, &watermarks, &format);
    let mut session = Session::new(HashSet::new());
    let reply = DecodeReply::Json(
        "{\"offset\":1,\"timestamp\":2,\"ahead\":3,\"partition\":4,\"x\":5}".to_string(),
    );
    let signal = Signal::Item(Item::Message(message(7, 10, "x")));
    assert!(session.wants_decode(&ctx, &signal));
    session.advance(&ctx, &signal, &reply).unwrap();
    feed(&mut session, &ctx, Signal::Pending);
    assert_eq!(
        text(&mut session),
        "{\"messages\":[{\"ahead\":0,\"offset\":\"10\",\"partition\":4,\"timestamp\":\"0\",\"x\":5}],\
         \"partition\":7,\"topic\":\"events\"}\n"
    );
}

#[test]
fn distance_is_never_negative() {
    let format = Formatter::Raw;
    let watermarks = BTreeMap::from([(0, (0, 5)), (1, (0, i64::MAX))]);
    let args = args();
    let ctx = context(&args, &watermarks, &format);
    let ahead = |partition: i32, offset: i64| {
        let line = kafq::commands::consume::decode_message(
            &ctx,
            &message(partition, offset, "x"),
            &DecodeReply::NotAsked,
        )
        .unwrap();
        match line {
            Json::Object(fields) => match fields.get("ahead") {
                Some(Json::Unsigned(n)) => *n,
                other => panic!("{other:?}"),
            },
            other => panic!("{other:?}"),
        }
    };
    assert_eq!(ahead(0, 3), 2);
    assert_eq!(ahead(0, 5), 0);
    assert_eq!(ahead(0, 9), 0);
    assert_eq!(ahead(2, 9), 0);
    assert_eq!(ahead(1, i64::MIN), u64::MAX);
}

fn values(output: &[u8]) -> Vec<(i64, Vec<String>)> {
    let text = String::from_utf8(output.to_vec()).unwrap();
    text.lines()
        .map(|line| match Json::parse(line.as_bytes()).unwrap() {
            Json::Object(fields) => {
                let partition = match fields.get("partition") {
                    Some(Json::Unsigned(n)) => *n as i64,
                    Some(Json::Negative(n)) => *n,
                    other => panic!("{other:?}"),
                };
                let messages = match fields.get("messages") {
                    Some(Json::Array(messages)) => messages
                        .iter()
                        .map(|message| match message {
                            Json::Object(fields) => match fields.get("value") {
                                Some(Json::Str(value)) => value.clone(),
                                other => panic!("{other:?}"),
                            },
                            other => panic!("{other:?}"),
                        })
                        .collect(),
                    other => panic!("{other:?}"),
                };
                (partition, messages)
            }
            other => panic!("{other:?}"),
        })
        .collect()
}

#[test]
fn lines_are_written_once_in_batches_by_partition() {
    let format = Formatter::Raw;
    let watermarks = BTreeMap::new();
    let mut asked = args();
    asked.batch_limit = 3;
    let ctx = context(&asked, &watermarks, &format);
    let mut session = Session::new(HashSet::new());
    let mut output = Vec::new();
    let records = [(1, "a"), (0, "b"), (1, "c"), (1, "d"), (1, "e"), (1, "f"), (-1, "g")];
    for (offset, (partition, payload)) in records.iter().enumerate() {
        let item = Item::Message(message(*partition, offset as i64, payload));
        let phase = feed(&mut session, &ctx, Signal::Item(item));
        assert!(!matches!(phase, Phase::Finished(_)));
        output.extend(session.take_output());
    }
    assert_eq!(feed(&mut session, &ctx, Signal::Sigint), Phase::Finished(SnapshotStop::Sigint));
    output.extend(session.take_output());
    let lines: Vec<(i64, Vec<String>)> = values(&output);
    let shown: Vec<(i64, String)> = lines.iter().map(|(p, m)| (*p, m.join(""))).collect();
    assert_eq!(
        shown,
        vec![
            (0, "b".to_string()),
            (1, "ac".to_string()),
            (1, "def".to_string()),
            (-1, "g".to_string()),
        ]
    );
    assert!(lines.iter().all(|(_, messages)| !messages.is_empty() && messages.len() <= 3));
}

#[test]
fn full_buckets_are_written_at_once() {
    let format = Formatter::Raw;
    let watermarks = BTreeMap::new();
    let ctx = Ctx {
        topic: "events",
        snapshot: false,
        skip: 0,
        limit: u64::MAX,
        batch_limit: 2,
        watermarks: &watermarks,
        format: &format,
    };
    let mut buckets = BTreeMap::new();
    let mut remaining = HashSet::new();
    let mut index = 0;
    let mut output = Vec::new();
    for offset in 0..3 {
        let item = Item::Message(message(4, offset, "v"));
        let stop = handle_item(
            &ctx,
            &item,
            &DecodeReply::NotAsked,
            &mut buckets,
            &mut remaining,
            &mut index,
            &mut output,
        )
        .unwrap();
        assert!(!stop);
    }
    assert_eq!(values(&output), vec![(4, vec!["v".to_string(), "v".to_string()])]);
    assert_eq!(buckets.get(&4).map(Vec::len), Some(1));
    flush_all(&mut output, "events", &mut buckets);
    assert_eq!(values(&output).len(), 2);
    assert_eq!(buckets.get(&4).map(Vec::len), Some(0));
    assert_eq!(index, 3);
}

#[test]
fn skipping_and_counting() {
    let format = Formatter::Raw;
    let watermarks = BTreeMap::new();
    let mut asked = args();
    asked.count = Some(2);
    asked.skip = 3;
    let ctx = context(&asked, &watermarks, &format);
    let mut session = Session::new(HashSet::new());
    let mut offset = 0;
    loop {
        let record = message(0, offset, &offset.to_string());
        assert_eq!(wants_decode(&ctx, &record, session.index), offset >= 3);
        let phase = feed(&mut session, &ctx, Signal::Item(Item::Message(record)));
        if phase == Phase::Finished(SnapshotStop::Complete) {
            break;
        }
        feed(&mut session, &ctx, Signal::Pending);
        offset += 1;
    }
    assert_eq!(offset, 4);
    let shown: Vec<String> = values(&session.take_output())
        .into_iter()
        .flat_map(|(_, messages)| messages)
        .collect();
    assert_eq!(shown, vec!["3".to_string(), "4".to_string()]);
}

#[test]
fn limits_saturate() {
    assert_eq!(message_limit(None, 5), u64::MAX);
    assert_eq!(message_limit(Some(2), 5), 7);
    assert_eq!(message_limit(Some(u64::MAX), 5), u64::MAX);
    assert_eq!(message_limit(Some(u64::MAX - 5), 5), u64::MAX);
}

#[test]
fn batch_limits_below_one_behave_as_one() {
    let format = Formatter::Raw;
    let watermarks = BTreeMap::new();
    let mut asked = args();
    asked.batch_limit = 0;
    let ctx = context(&asked, &watermarks, &format);
    assert_eq!(ctx.batch_limit, 1);
    assert_eq!(pool_size(&ctx), 0);
    let mut session = Session::new(HashSet::new());
    let phase = feed(&mut session, &ctx, Signal::Item(Item::Message(message(0, 0, "v"))));
    assert_eq!(phase, Phase::Waiting);
    assert_eq!(values(&session.take_output()).len(), 1);
}

#[test]
fn snapshots_end_when_nothing_remains() {
    let format = Formatter::Raw;
    let watermarks = BTreeMap::from([(0, (0, 2)), (1, (0, 1)), (2, (4, 4))]);
    let mut asked = args();
    asked.snapshot = true;
    let assignments = vec![
        (0, Offset::Beginning),
        (1, Offset::Beginning),
        (2, Offset::Beginning),
    ];
    let ctx = context(&asked, &watermarks, &format);
    let mut session = Session::begin(&asked, &assignments, &watermarks).unwrap();
    assert_eq!(session.remaining, HashSet::from([0, 1]));
    let mut output = Vec::new();
    for (signal, finished) in [
        (Item::Message(message(0, 0, "a")), false),
        (Item::Message(message(1, 5, "late")), false),
        (Item::PartitionEof(2), false),
        (Item::Message(message(0, 1, "b")), true),
    ] {
        let phase = feed(&mut session, &ctx, Signal::Item(signal));
        assert_eq!(phase == Phase::Finished(SnapshotStop::Complete), finished);
        output.extend(session.take_output());
    }
    let shown: Vec<String> = values(&output).into_iter().flat_map(|(_, m)| m).collect();
    assert_eq!(shown, vec!["a".to_string(), "b".to_string()]);
}

#[test]
fn the_end_of_a_partition_completes_a_snapshot_only() {
    let format = Formatter::Raw;
    let watermarks = BTreeMap::from([(0, (0, 9))]);
    let mut asked = args();
    let assignments = vec![(0, Offset::Beginning)];
    let ctx = context(&asked, &watermarks, &format);
    let mut session = Session::begin(&asked, &assignments, &watermarks).unwrap();
    let phase = feed(&mut session, &ctx, Signal::Item(Item::PartitionEof(0)));
    assert!(!matches!(phase, Phase::Finished(_)));

    asked.snapshot = true;
    let ctx = context(&asked, &watermarks, &format);
    let mut session = Session::begin(&asked, &assignments, &watermarks).unwrap();
    let phase = feed(&mut session, &ctx, Signal::Item(Item::PartitionEof(0)));
    assert_eq!(phase, Phase::Finished(SnapshotStop::Complete));
}

#[test]
fn empty_snapshots_do_not_begin() {
    let watermarks = BTreeMap::from([(0, (3, 3)), (1, (0, 4))]);
    let mut asked = args();
    asked.snapshot = true;
    let assignments = vec![(0, Offset::Beginning), (1, Offset::End)];
    assert!(Session::begin(&asked, &assignments, &watermarks).is_none());
    asked.snapshot = false;
    assert!(Session::begin(&asked, &assignments, &watermarks).is_some());
}

#[test]
fn failures_leave_a_run_as_it_was() {
    let format = Formatter::Json;
    let watermarks = BTreeMap::new();
    let asked = args();
    let ctx = context(&asked, &watermarks, &format);
    let mut session = Session::new(HashSet::from([1]));
    let bad = Signal::Item(Item::Message(message(0, 0, "{")));
    let error = session.advance(&ctx, &bad, &DecodeReply::NotAsked).unwrap_err();
    assert_eq!(error.message, "EOF while parsing an object at line 1 column 1");
    let failed = Signal::Item(Item::Failed("broker gone".to_string()));
    let error = session.advance(&ctx, &failed, &DecodeReply::NotAsked).unwrap_err();
    assert_eq!(error.message, "broker gone");
    assert_eq!(session.index, 0);
    assert_eq!(session.remaining, HashSet::from([1]));
    assert!(session.buckets.is_empty());
    assert!(session.output.is_empty());
}

#[test]
fn runs_end_flushed_however_they_end() {
    let format = Formatter::Raw;
    let watermarks = BTreeMap::new();
    let asked = args();
    let ctx = context(&asked, &watermarks, &format);
    for (signal, stop) in [
        (Signal::Timeout, SnapshotStop::Timeout),
        (Signal::Sigint, SnapshotStop::Sigint),
        (Signal::Sigterm, SnapshotStop::Sigterm),
        (Signal::Item(Item::Ended), SnapshotStop::Complete),
    ] {
        let mut session = Session::new(HashSet::new());
        feed(&mut session, &ctx, Signal::Item(Item::Message(message(0, 0, "v"))));
        assert!(session.output.is_empty());
        assert_eq!(feed(&mut session, &ctx, signal), Phase::Finished(stop));
        assert_eq!(values(&session.take_output()).len(), 1);
    }
}

#[test]
fn only_timeouts_fail() {
    assert_eq!(exit_code(SnapshotStop::Complete), 0);
    assert_eq!(exit_code(SnapshotStop::Timeout), 1);
    assert_eq!(exit_code(SnapshotStop::Sigint), 0);
    assert_eq!(exit_code(SnapshotStop::Sigterm), 0);
}

#[test]
fn snapshots_start_at_the_beginning() {
    let mut asked = args();
    assert_eq!(start_of(&asked), Ok(StartFrom::End));
    asked.snapshot = true;
    assert_eq!(start_of(&asked), Ok(StartFrom::Beginning));
    asked.from = Some("17".to_string());
    assert_eq!(start_of(&asked), Ok(StartFrom::Timestamp(17)));
    asked.from = Some("0".to_string());
    asked.snapshot = false;
    assert_eq!(start_of(&asked), Ok(StartFrom::Beginning));
    asked.from = Some("?".to_string());
    assert!(start_of(&asked).is_err());
}

#[test]
fn consumer_settings() {
    let mut config = ClientConfig::new();
    consumer_config(&mut config, "mine", false);
    assert_eq!(config.get("group.id"), Some("mine"));
    assert_eq!(config.get("enable.auto.commit"), Some("true"));
    assert_eq!(config.get("session.timeout.ms"), Some("30000"));
    assert_eq!(config.get("heartbeat.interval.ms"), Some("1000"));
    assert_eq!(config.get("auto.offset.reset"), Some("earliest"));
    assert_eq!(config.get("enable.partition.eof"), None);
    consumer_config(&mut config, "mine", true);
    assert_eq!(config.get("enable.partition.eof"), Some("true"));
}

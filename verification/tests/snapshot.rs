use std::collections::{BTreeMap, HashSet};

use kafq::commands::copy_topic::{batch_records, future_record, CopyCtx, CopyRun};
use kafq::commands::dump_topic::{dump_message, DumpCtx, DumpRun};
use kafq::commands::{copy_topic, dump_topic, Item, KafkaMessage, Signal, SnapshotStop};
use kafq::json::Json;
use kafq::offsets::Offset;

fn message(partition: i32, offset: i64, payload: Option<&[u8]>) -> KafkaMessage {
    KafkaMessage {
        partition,
        offset,
        timestamp: Some(7),
        key: Some(vec![0xff]),
        payload: payload.map(|p| p.to_vec()),
        headers: Some(vec![
            ("h".to_string(), Some(vec![0xfe])),
            ("none".to_string(), None),
            ("h".to_string(), Some(Vec::new())),
        ]),
    }
}

fn item(partition: i32, offset: i64) -> Signal {
    Signal::Item(Item::Message(message(partition, offset, Some(&[offset as u8]))))
}

#[test]
fn copy_topic_future_record_distinguishes_null_and_empty_payloads() {
    let null_record = future_record("dest", None, None, None);
    let empty = [];
    let empty_record = future_record("dest", Some(&empty), None, None);

    assert!(null_record.payload.is_none());
    assert_eq!(empty_record.payload.as_deref(), Some(empty.as_slice()));
}

#[test]
fn copies_keep_key_payload_and_headers() {
    let watermarks = BTreeMap::from([(0, (0, 10))]);
    let ctx = CopyCtx { watermarks: &watermarks, limit: u64::MAX, batch_size: 1 };
    let mut run = CopyRun::new(HashSet::from([0]));
    let action = run
        .advance(&ctx, Signal::Item(Item::Message(message(0, 3, None))))
        .unwrap();
    let records = batch_records("dest", &action.send);
    assert_eq!(records.len(), 1);
    assert_eq!(records[0].topic, "dest");
    assert_eq!(records[0].payload, None);
    assert_eq!(records[0].key, Some(vec![0xff]));
    assert_eq!(records[0].partition, None);
    assert_eq!(
        records[0].headers,
        Some(vec![
            ("h".to_string(), Some(vec![0xfe])),
            ("none".to_string(), None),
            ("h".to_string(), Some(Vec::new())),
        ])
    );
}

fn payloads(run: &mut CopyRun, ctx: &CopyCtx<'_>, signal: Signal) -> (Vec<u8>, Option<SnapshotStop>) {
    let action = run.advance(ctx, signal).unwrap();
    let sent = action
        .send
        .iter()
        .flat_map(|m| m.payload.clone().unwrap_or_default())
        .collect();
    (sent, action.stop)
}

#[test]
fn copies_are_sent_in_batches_and_once() {
    let watermarks = BTreeMap::from([(0, (0, 4)), (1, (0, 2))]);
    let ctx = CopyCtx { watermarks: &watermarks, limit: u64::MAX, batch_size: 2 };
    let assignments = vec![(0, Offset::Beginning), (1, Offset::Beginning)];
    let mut run = CopyRun::begin(&assignments, &watermarks).unwrap();
    let mut seen = Vec::new();
    for (signal, sent, stop) in [
        (item(0, 0), vec![], None),
        (item(1, 0), vec![0, 0], None),
        (item(0, 1), vec![], None),
        (item(1, 7), vec![], None),
        (Signal::Item(Item::PartitionEof(3)), vec![], None),
        (Signal::Pending, vec![], None),
        (item(0, 2), vec![1, 2], None),
        (item(0, 3), vec![3], Some(SnapshotStop::Complete)),
    ] {
        let got = payloads(&mut run, &ctx, signal);
        assert_eq!(got, (sent, stop));
        seen.extend(got.0);
    }
    assert_eq!(seen, vec![0, 0, 1, 2, 3]);
    assert_eq!(run.total, 5);
    assert_eq!(copy_topic::report(run.total), "5 messages copied");
}

#[test]
fn copies_stop_at_the_count() {
    let watermarks = BTreeMap::from([(0, (0, 100))]);
    let ctx = CopyCtx { watermarks: &watermarks, limit: 2, batch_size: 500 };
    let mut run = CopyRun::new(HashSet::from([0]));
    assert_eq!(payloads(&mut run, &ctx, item(0, 0)), (vec![], None));
    assert_eq!(
        payloads(&mut run, &ctx, item(0, 1)),
        (vec![0, 1], Some(SnapshotStop::Complete))
    );
    assert_eq!(run.total, 2);
}

#[test]
fn interrupted_copies_send_what_waits() {
    let watermarks = BTreeMap::from([(0, (0, 100))]);
    let ctx = CopyCtx { watermarks: &watermarks, limit: u64::MAX, batch_size: 500 };
    for (signal, stop) in [
        (Signal::Timeout, SnapshotStop::Timeout),
        (Signal::Sigint, SnapshotStop::Sigint),
        (Signal::Sigterm, SnapshotStop::Sigterm),
        (Signal::Item(Item::Ended), SnapshotStop::Complete),
        (Signal::Item(Item::PartitionEof(0)), SnapshotStop::Complete),
    ] {
        let mut run = CopyRun::new(HashSet::from([0]));
        payloads(&mut run, &ctx, item(0, 5));
        assert_eq!(payloads(&mut run, &ctx, signal), (vec![5], Some(stop)));
        assert!(run.batch.is_empty());
    }
    let mut run = CopyRun::new(HashSet::from([0]));
    let failed = Signal::Item(Item::Failed("gone".to_string()));
    assert_eq!(run.advance(&ctx, failed).unwrap_err().message, "gone");
}

#[test]
fn empty_snapshots_are_not_copied_or_dumped() {
    let watermarks = BTreeMap::from([(0, (3, 3))]);
    let assignments = vec![(0, Offset::Beginning)];
    assert!(CopyRun::begin(&assignments, &watermarks).is_none());
    assert!(DumpRun::begin(&assignments, &watermarks).is_none());
    assert_eq!(copy_topic::report(0), "0 messages copied");
    assert_eq!(dump_topic::report(0, "f"), "0 messages dumped to f");
}

#[test]
fn dumped_lines_hold_lossy_texts() {
    let line = dump_message(&message(2, 9, Some(b"v\xff")));
    assert_eq!(line.partition, 2);
    assert_eq!(line.offset, "9");
    assert_eq!(line.timestamp, "7");
    assert_eq!(Json::Object(line.headers).text(), "{\"h\":\"\",\"none\":\"\"}");
    assert_eq!(line.key.as_deref(), Some("\u{fffd}"));
    assert_eq!(line.value.as_deref(), Some("v\u{fffd}"));

    let mut record = message(0, 0, None);
    record.timestamp = None;
    record.key = None;
    record.headers = None;
    let line = dump_message(&record);
    assert_eq!(line.timestamp, "0");
    assert_eq!(line.key, None);
    assert_eq!(line.value, None);
    assert_eq!(Json::Object(line.headers).text(), "{}");
}

#[test]
fn dumps_hold_the_records_below_the_high_watermark() {
    let watermarks = BTreeMap::from([(0, (0, 3)), (1, (0, 1))]);
    let ctx = DumpCtx { watermarks: &watermarks, limit: u64::MAX };
    let assignments = vec![(0, Offset::Offset(1)), (1, Offset::Beginning)];
    let mut run = DumpRun::begin(&assignments, &watermarks).unwrap();
    let mut lines = Vec::new();
    let mut stop = None;
    for signal in [item(0, 1), item(1, 4), item(0, 3), item(0, 2)] {
        assert_eq!(stop, None);
        let action = run.advance(&ctx, &signal).unwrap();
        lines.extend(action.line.map(|line| (line.partition, line.offset)));
        stop = action.stop;
        if stop.is_some() {
            break;
        }
    }
    assert_eq!(lines, vec![(0, "1".to_string())]);
    assert_eq!(stop, Some(SnapshotStop::Complete));
    assert_eq!(run.total, 1);
}

#[test]
fn dumps_stop_at_the_count_and_on_signals() {
    let watermarks = BTreeMap::from([(0, (0, 100))]);
    let ctx = DumpCtx { watermarks: &watermarks, limit: 2 };
    let mut run = DumpRun::new(HashSet::from([0]));
    assert_eq!(run.advance(&ctx, &item(0, 0)).unwrap().stop, None);
    assert_eq!(run.advance(&ctx, &Signal::Pending).unwrap().stop, None);
    assert_eq!(
        run.advance(&ctx, &item(0, 1)).unwrap().stop,
        Some(SnapshotStop::Complete)
    );
    assert_eq!(dump_topic::report(run.total, "out"), "2 messages dumped to out");

    for (signal, stop) in [
        (Signal::Timeout, SnapshotStop::Timeout),
        (Signal::Sigint, SnapshotStop::Sigint),
        (Signal::Sigterm, SnapshotStop::Sigterm),
        (Signal::Item(Item::Ended), SnapshotStop::Complete),
        (Signal::Item(Item::PartitionEof(0)), SnapshotStop::Complete),
    ] {
        let mut run = DumpRun::new(HashSet::from([0]));
        let action = run.advance(&ctx, &signal).unwrap();
        assert!(action.line.is_none());
        assert_eq!(action.stop, Some(stop));
    }
    let failed = Signal::Item(Item::Failed("gone".to_string()));
    assert_eq!(run.advance(&ctx, &failed).unwrap_err().message, "gone");
}

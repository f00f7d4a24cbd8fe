use std::collections::{BTreeMap, HashSet};
use std::time::{SystemTime, UNIX_EPOCH};

use kafq::clock::read_clock;
use kafq::commands::config::{
    describe_resource, normalize_resource, resource_specifier, source_label, ConfigSource,
    DescribedEntry, Resource,
};
use kafq::commands::create_topic::created;
use kafq::commands::delete_topic::check_deletions;
use kafq::commands::list::{list_topics, topic_lines};
use kafq::commands::metadata::{controller_timeout, metadata_output, BrokerMetadata};
use kafq::commands::topic_offsets::{
    committed_offsets, lookup_group, lookup_of, timestamp_offset, watermark, Lookup,
};
use kafq::commands::{
    assign_all, assignment_list, check_deliveries, compression_config, fixed_starts, group_config,
    group_name, list_partitions, millis_or_zero, now_millis, offset_of, parse_count,
    partition_list, partition_offset, remaining_partitions, resolve_starts, snapshot_config,
    snapshot_limit, start_from, start_offset, timestamp_query, MetadataError, PartitionMetadata,
    SnapshotStop, StartFrom, TopicMetadata,
};
use kafq::json::Json;
use kafq::offsets::{Found, Offset};
use rdkafka::types::RDKafkaRespErr;
use rdkafka::{ClientConfig, TopicPartitionList};

#[test]
fn snapshot_stop_exit_codes_distinguish_signals_from_completion() {
    assert_eq!(SnapshotStop::Complete.exit_code(), 0);
    assert_eq!(SnapshotStop::Timeout.exit_code(), 1);
    assert_eq!(SnapshotStop::Sigint.exit_code(), 130);
    assert_eq!(SnapshotStop::Sigterm.exit_code(), 143);
}

#[test]
fn partition_offset_propagates_element_error() {
    const TOPIC: &str = "events";
    const PARTITION: i32 = 3;
    let element = Found { offset: Offset::Invalid, failed: true };

    let error = offset_of(Some(element), TOPIC, PARTITION, "Timestamp offset lookup")
        .expect_err("partition error was ignored");

    assert!(error.message.contains("Timestamp offset lookup"));
    assert!(error.message.contains("events partition 3"));
    assert_eq!(
        error.message,
        "Timestamp offset lookup failed for topic events partition 3"
    );
}

#[test]
fn partition_offset_preserves_error_free_invalid_offset() {
    let mut offsets = TopicPartitionList::new();
    offsets.add_partition("events", 3);

    let offset = partition_offset(&offsets, "events", 3, "Timestamp offset lookup")
        .expect("error-free invalid offset was rejected");

    assert_eq!(offset, Offset::Invalid);
}

#[test]
fn partition_offset_tells_of_missing_results() {
    let mut offsets = TopicPartitionList::new();
    offsets.add_partition("events", 3);

    for (topic, partition) in [("events", 4), ("event", 3)] {
        let error = partition_offset(&offsets, topic, partition, "Lookup").unwrap_err();
        assert_eq!(
            error.message,
            format!("Lookup returned no result for topic {topic} partition {partition}")
        );
    }
}

fn forbidden_topic(topic: &str) -> kafq::error::Error {
    let code = RDKafkaRespErr::RD_KAFKA_RESP_ERR_TOPIC_AUTHORIZATION_FAILED;
    let topics = vec![TopicMetadata {
        name: topic.to_string(),
        error: Some(MetadataError { label: format!("{code:?}"), code: code as i32 }),
        partitions: Vec::new(),
    }];

    list_partitions(&topics, topic).expect_err("topic metadata error was ignored")
}

#[test]
fn consume_list_partitions_propagates_topic_metadata_errors() {
    let error = forbidden_topic("consume-forbidden");

    assert!(error.message.contains("metadata error"));
}

#[test]
fn copy_topic_list_partitions_propagates_topic_metadata_errors() {
    let error = forbidden_topic("copy-forbidden");

    assert!(error.message.contains("metadata error"));
}

#[test]
fn dump_topic_list_partitions_propagates_topic_metadata_errors() {
    let error = forbidden_topic("dump-forbidden");

    assert!(error.message.contains("metadata error"));
}

fn count_argument<'a>(args: &[&'a str]) -> Option<&'a str> {
    let at = args.iter().position(|arg| *arg == "--count")?;
    Some(args[at + 1])
}

#[test]
fn zero_count_is_rejected_for_message_commands() {
    let cases: &[&[&str]] = &[
        &["kafq", "consume", "source", "--count", "0"],
        &["kafq", "topic:copy", "source", "dest", "--count", "0"],
        &[
            "kafq",
            "topic:dump",
            "source",
            "--output",
            "dump.jsonl",
            "--count",
            "0",
        ],
    ];

    for args in cases {
        let count = count_argument(args).expect("a count is given");
        let error = match parse_count(count) {
            Ok(_) => panic!("zero count was accepted for {args:?}"),
            Err(error) => error,
        };

        assert_eq!(error.message, "0 is not in 1..18446744073709551615");
    }
}

#[test]
fn positive_and_omitted_counts_are_accepted() {
    let cases: &[&[&str]] = &[
        &["kafq", "consume", "source"],
        &["kafq", "consume", "source", "--count", "1"],
        &["kafq", "topic:copy", "source", "dest"],
        &["kafq", "topic:copy", "source", "dest", "--count", "1"],
        &["kafq", "topic:dump", "source", "--output", "dump.jsonl"],
        &[
            "kafq",
            "topic:dump",
            "source",
            "--output",
            "dump.jsonl",
            "--count",
            "1",
        ],
    ];

    for args in cases {
        match count_argument(args) {
            Some(count) => match parse_count(count) {
                Ok(count) => assert_eq!(snapshot_limit(Some(count)), 1),
                Err(error) => panic!("valid count was rejected for {args:?}: {error:?}"),
            },
            None => assert_eq!(snapshot_limit(None), u64::MAX),
        }
    }
}

#[test]
fn counts_are_decimal_numbers() {
    assert_eq!(parse_count("+7"), Ok(7));
    assert_eq!(parse_count("18446744073709551615"), Ok(u64::MAX));
    let message = |text: &str| parse_count(text).unwrap_err().message;
    assert_eq!(message(""), "cannot parse integer from empty string");
    assert_eq!(message("+"), "invalid digit found in string");
    assert_eq!(message("-1"), "invalid digit found in string");
    assert_eq!(message("1x"), "invalid digit found in string");
    assert_eq!(
        message("18446744073709551616"),
        "number too large to fit in target type"
    );
    for text in ["", "+", "-", "-1", "1x", "99999999999999999999x", "12 ", "0x1", "+-1", "007"] {
        match text.parse::<u64>() {
            Ok(n) => assert_eq!(parse_count(text), Ok(n)),
            Err(e) => assert_eq!(message(text), e.to_string()),
        }
    }
}

fn topic(name: &str, error: Option<&str>, ids: &[i32]) -> TopicMetadata {
    TopicMetadata {
        name: name.to_string(),
        error: error.map(|label| MetadataError { label: label.to_string(), code: 29 }),
        partitions: ids
            .iter()
            .map(|id| PartitionMetadata {
                id: *id,
                leader: 1,
                replicas: vec![1, *id],
                isr: vec![1],
                error: None,
            })
            .collect(),
    }
}

#[test]
fn partitions_are_listed_in_order() {
    let topics = vec![
        topic("other", None, &[9]),
        topic("events", None, &[2, 0, -1, 1, 0]),
        topic("events", None, &[5]),
    ];

    assert_eq!(list_partitions(&topics, "events"), Ok(vec![-1, 0, 0, 1, 2]));
    assert_eq!(
        list_partitions(&topics, "none").unwrap_err().message,
        "Topic none not found"
    );
    assert_eq!(
        list_partitions(&vec![topic("bad", Some("DENIED"), &[0])], "bad")
            .unwrap_err()
            .message,
        "Topic bad metadata error: DENIED"
    );
}

#[test]
fn the_first_failed_delivery_is_told() {
    assert!(check_deliveries(&vec![]).is_ok());
    assert!(check_deliveries(&vec![Ok(()), Ok(())]).is_ok());
    let error = check_deliveries(&vec![
        Ok(()),
        Err("first".to_string()),
        Err("second".to_string()),
    ])
    .unwrap_err();
    assert_eq!(error.message, "Failed to send message: first");
}

#[test]
fn clock_readings_are_cut_to_size() {
    assert_eq!(millis_or_zero(Ok(1_780_000_000_000)), 1_780_000_000_000);
    assert_eq!(millis_or_zero(Ok((1u128 << 64) + 5)), 5);
    assert_eq!(millis_or_zero(Err("early".to_string())), 0);
    assert!(now_millis() > 1_600_000_000_000);
}

#[test]
fn the_clock_is_read_in_milliseconds_since_the_epoch() {
    let millis = |time: SystemTime| time.duration_since(UNIX_EPOCH).unwrap().as_millis();
    let before = millis(SystemTime::now());
    let reading = read_clock().unwrap();
    let now = now_millis();
    let after = millis(SystemTime::now());
    assert!(before <= reading && reading <= after);
    assert!(before as i64 <= now && now <= after as i64);
}

#[test]
fn group_names_are_given_or_generated() {
    assert_eq!(group_name(&Some("mine".to_string()), "kafq-copy-", 5), "mine");
    assert_eq!(group_name(&None, "kafq-copy-", 5), "kafq-copy-5");
}

#[test]
fn start_offsets_follow_the_assignment() {
    assert_eq!(start_offset(Offset::Beginning, 3, 9), 3);
    assert_eq!(start_offset(Offset::Offset(5), 3, 9), 5);
    assert_eq!(start_offset(Offset::End, 3, 9), 9);
    assert_eq!(start_offset(Offset::Invalid, 3, 9), 9);
    assert_eq!(start_offset(Offset::Stored, 3, 9), 9);
    assert_eq!(start_offset(Offset::OffsetTail(2), 3, 9), 9);
}

#[test]
fn starts_are_read() {
    assert_eq!(start_from("0"), Ok(StartFrom::Beginning));
    assert_eq!(start_from("00"), Ok(StartFrom::Timestamp(0)));
    assert_eq!(start_from("1780000000000"), Ok(StartFrom::Timestamp(1_780_000_000_000)));
    assert_eq!(start_from("1970-01-01T00:00:01Z"), Ok(StartFrom::Timestamp(1_000)));
    assert_eq!(start_from("soon").unwrap_err().message, "Invalid timestamp \"soon\"");

    let partitions = vec![0, 2];
    assert_eq!(
        fixed_starts(StartFrom::End, &partitions),
        Some(vec![(0, Offset::End), (2, Offset::End)])
    );
    assert_eq!(
        fixed_starts(StartFrom::Beginning, &partitions),
        Some(assign_all(&partitions, Offset::Beginning))
    );
    assert_eq!(fixed_starts(StartFrom::Timestamp(1), &partitions), None);
}

#[test]
fn assignments_fill_the_list_one_for_one() {
    let list = assignment_list(
        "events",
        &vec![(2, Offset::Beginning), (0, Offset::Offset(7)), (1, Offset::End)],
    )
    .unwrap();

    let elements: Vec<(String, i32, rdkafka::Offset)> = list
        .elements()
        .iter()
        .map(|e| (e.topic().to_string(), e.partition(), e.offset()))
        .collect();
    assert_eq!(
        elements,
        vec![
            ("events".to_string(), 2, rdkafka::Offset::Beginning),
            ("events".to_string(), 0, rdkafka::Offset::Offset(7)),
            ("events".to_string(), 1, rdkafka::Offset::End),
        ]
    );
}

#[test]
fn a_partition_assigned_twice_has_its_last_offset_first() {
    let list = assignment_list(
        "events",
        &vec![(0, Offset::Offset(7)), (0, Offset::Offset(8))],
    )
    .unwrap();

    assert_eq!(list.count(), 2);
    assert_eq!(list.elements()[0].offset(), rdkafka::Offset::Offset(8));
    assert_eq!(list.elements()[1].offset(), rdkafka::Offset::Invalid);
}

#[test]
fn negative_offsets_are_refused() {
    let error = timestamp_query("events", &vec![0, 1], -1).err().unwrap();
    assert_eq!(
        error.message,
        "Set partition offset error: InvalidArgument (Local: Invalid argument or configuration)"
    );
    assert_eq!(timestamp_query("events", &vec![], -1).unwrap().count(), 0);
    let list = timestamp_query("events", &vec![0, 1], 5).unwrap();
    assert_eq!(list.elements()[1].offset(), rdkafka::Offset::Offset(5));
}

#[test]
fn lookups_give_starts() {
    let mut resolved = TopicPartitionList::new();
    resolved
        .add_partition_offset("events", 0, rdkafka::Offset::Offset(4))
        .unwrap();
    resolved
        .add_partition_offset("events", 1, rdkafka::Offset::End)
        .unwrap();
    resolved.add_partition("events", 2);

    assert_eq!(
        resolve_starts(&resolved, "events", &vec![0, 1, 2]),
        Ok(vec![(0, Offset::Offset(4)), (1, Offset::End), (2, Offset::End)])
    );
    assert_eq!(
        resolve_starts(&resolved, "events", &vec![0, 7]).unwrap_err().message,
        "Timestamp offset lookup returned no result for topic events partition 7"
    );
}

#[test]
fn only_partitions_with_records_remain() {
    let watermarks = BTreeMap::from([(0, (0, 10)), (1, (5, 5)), (2, (0, 3))]);
    let from_beginning = vec![
        (0, Offset::Beginning),
        (1, Offset::Beginning),
        (2, Offset::Beginning),
        (3, Offset::Beginning),
    ];
    assert_eq!(
        remaining_partitions(&from_beginning, &watermarks),
        HashSet::from([0, 2])
    );
    let resolved = vec![(0, Offset::Offset(9)), (1, Offset::End), (2, Offset::Offset(3))];
    assert_eq!(remaining_partitions(&resolved, &watermarks), HashSet::from([0]));
}

#[test]
fn settings_of_snapshots() {
    let mut config = ClientConfig::new();
    snapshot_config(&mut config, "mine");
    assert_eq!(config.get("group.id"), Some("mine"));
    assert_eq!(config.get("enable.auto.commit"), Some("true"));
    assert_eq!(config.get("auto.offset.reset"), Some("earliest"));
    assert_eq!(config.get("enable.partition.eof"), Some("true"));

    group_config(&mut config, "other");
    assert_eq!(config.get("group.id"), Some("other"));
    compression_config(&mut config, &None);
    assert_eq!(config.get("compression.type"), None);
    compression_config(&mut config, &Some("zstd".to_string()));
    assert_eq!(config.get("compression.type"), Some("zstd"));
}

#[test]
fn topics_are_listed_sorted_without_internal_ones() {
    let names: Vec<String> = ["b", "__consumer_offsets", "a", "_c", "é", "B", "b"]
        .iter()
        .map(|name| name.to_string())
        .collect();

    let shown = list_topics(&names, false);
    assert_eq!(shown, vec!["B", "_c", "a", "b", "b", "é"]);
    let all = list_topics(&names, true);
    assert_eq!(all, vec!["B", "__consumer_offsets", "_c", "a", "b", "b", "é"]);

    let lines = topic_lines(&vec!["a\"b".to_string(), "c".to_string()]);
    assert_eq!(lines, b"\"a\\\"b\"\n\"c\"\n".to_vec());

    let lines = topic_lines(&vec!["two\nlines".to_string()]);
    assert_eq!(lines, b"\"two\\nlines\"\n".to_vec());
}

#[test]
fn metadata_shows_partitions_by_number() {
    let brokers = vec![BrokerMetadata { id: 7, host: "h".to_string(), port: 9092 }];
    let mut events = topic("events", Some("DENIED"), &[2, 0, 1]);
    events.partitions[0].error = Some(MetadataError { label: "X".to_string(), code: 5 });
    let topics = vec![events, topic("__internal", None, &[])];
    let shown = metadata_output(&brokers, None, 7, &topics);

    assert_eq!(shown.throttle_time, 0);
    assert_eq!(shown.cluster_id, "");
    assert_eq!(shown.controller_id, 7);
    assert_eq!(shown.brokers[0].node_id, 7);
    assert_eq!(shown.brokers[0].host, "h");
    assert_eq!(shown.brokers[0].port, 9092);
    assert_eq!(shown.brokers[0].rack, Json::Null);
    let events = &shown.topic_metadata[0];
    assert_eq!(events.topic, "events");
    assert_eq!(events.topic_error_code, 29);
    assert!(!events.is_internal);
    let ids: Vec<i32> = events.partition_metadata.iter().map(|p| p.partition_id).collect();
    assert_eq!(ids, vec![0, 1, 2]);
    assert_eq!(events.partition_metadata[2].partition_error_code, 5);
    assert_eq!(events.partition_metadata[2].replicas, vec![1, 2]);
    assert_eq!(events.partition_metadata[2].isr, vec![1]);
    assert_eq!(events.partition_metadata[0].partition_error_code, 0);
    assert!(shown.topic_metadata[1].is_internal);
    assert_eq!(
        metadata_output(&brokers, Some("id".to_string()), 7, &topics).cluster_id,
        "id"
    );
}

#[test]
fn partitions_with_one_number_stay_in_order() {
    let mut events = topic("events", None, &[1, 0, 1, 0]);
    for (leader, partition) in events.partitions.iter_mut().enumerate() {
        partition.leader = leader as i32;
    }
    let shown = metadata_output(&vec![], None, 0, &vec![events]);
    let order: Vec<(i32, i32)> = shown.topic_metadata[0]
        .partition_metadata
        .iter()
        .map(|p| (p.partition_id, p.leader))
        .collect();
    assert_eq!(order, vec![(0, 1), (0, 3), (1, 0), (1, 2)]);
}

fn options(timeout_ms: u64) -> kafq::client::GlobalOptions {
    kafq::client::GlobalOptions {
        brokers: "localhost:9092".to_string(),
        timeout_ms,
        ssl: false,
        insecure: false,
        mechanism: None,
        username: None,
        password: None,
        oauth_bearer: None,
        oauth_principal: None,
        oauth_expiry_ms: None,
        oidc_token_url: None,
        oidc_client_id: None,
        oidc_client_secret: None,
        oidc_scope: None,
        oidc_extensions: None,
    }
}

#[test]
fn controller_timeout_is_in_milliseconds() {
    assert_eq!(controller_timeout(&options(0)), 30_000);
    assert_eq!(controller_timeout(&options(1_234)), 1_234);
    assert_eq!(controller_timeout(&options((1 << 32) + 3)), 3);
}

#[test]
fn resources_are_named() {
    assert_eq!(normalize_resource("Topic"), Ok("TOPIC"));
    assert_eq!(normalize_resource("BROKER"), Ok("BROKER"));
    assert_eq!(normalize_resource("broker_logger"), Ok("BROKER_LOGGER"));
    assert_eq!(normalize_resource("logger"), Ok("BROKER_LOGGER"));
    assert_eq!(normalize_resource("any"), Ok("UNKNOWN"));
    assert_eq!(
        normalize_resource("Group").unwrap_err().message,
        "Unsupported resource type: group"
    );

    assert!(matches!(resource_specifier("TOPIC", "t"), Ok(Resource::Topic("t"))));
    assert!(matches!(resource_specifier("BROKER", "12"), Ok(Resource::Broker(12))));
    assert!(matches!(resource_specifier("BROKER", "-1"), Ok(Resource::Broker(-1))));
    for name in ["", "b", "2147483648", "1.5", "-", "+"] {
        assert_eq!(
            resource_specifier("BROKER", name).unwrap_err().message,
            "Broker resource name must be a numeric ID"
        );
    }
    assert_eq!(
        resource_specifier("BROKER_LOGGER", "1").unwrap_err().message,
        "Resource type BROKER_LOGGER is not supported by rdkafka admin client"
    );
}

#[test]
fn sources_have_labels() {
    assert_eq!(source_label(ConfigSource::Unknown), "UNKNOWN_CONFIG");
    assert_eq!(source_label(ConfigSource::DynamicTopic), "DYNAMIC_TOPIC_CONFIG");
    assert_eq!(source_label(ConfigSource::DynamicBroker), "DYNAMIC_BROKER_CONFIG");
    assert_eq!(
        source_label(ConfigSource::DynamicDefaultBroker),
        "DYNAMIC_DEFAULT_BROKER_CONFIG"
    );
    assert_eq!(source_label(ConfigSource::StaticBroker), "STATIC_BROKER_CONFIG");
    assert_eq!(source_label(ConfigSource::Default), "DEFAULT_CONFIG");
}

fn entry(name: &str, value: Option<&str>, is_sensitive: bool) -> DescribedEntry {
    DescribedEntry {
        name: name.to_string(),
        value: value.map(|v| v.to_string()),
        is_read_only: true,
        is_default: false,
        is_sensitive,
        source: ConfigSource::Default,
    }
}

#[test]
fn configurations_are_shown() {
    let described = Ok(vec![
        entry("a", Some("1"), false),
        entry("b", None, false),
        entry("c", Some("s"), true),
    ]);
    let shown = describe_resource("TOPIC", "events", &described).unwrap();

    assert_eq!(shown.resource_type, "TOPIC");
    assert_eq!(shown.resource_name, "events");
    assert_eq!(shown.configs.len(), 3);
    assert_eq!(shown.configs[0].name, "a");
    assert_eq!(shown.configs[0].value, Json::Str("1".to_string()));
    assert!(shown.configs[0].read_only);
    assert!(!shown.configs[0].is_default);
    assert!(!shown.configs[0].sensitive);
    assert_eq!(shown.configs[0].source, "DEFAULT_CONFIG");
    assert!(shown.configs[0].synonyms.is_empty());
    assert_eq!(shown.configs[1].value, Json::Null);
    assert!(shown.configs[2].sensitive);
    assert_eq!(shown.configs[2].value, Json::Null);

    assert_eq!(
        describe_resource("TOPIC", "events", &Err("CODE".to_string()))
            .unwrap_err()
            .message,
        "Failed to describe configs: CODE"
    );
}

#[test]
fn created_topics_are_shown() {
    let args = kafq::commands::create_topic::Args {
        topic: "events".to_string(),
        partitions: 3,
        replicas: 2,
    };
    let shown = created(&args, &Ok("events".to_string())).unwrap();
    assert_eq!((shown.name.as_str(), shown.partitions, shown.replicas), ("events", 3, 2));
    assert_eq!(
        created(&args, &Err(("events".to_string(), "EXISTS".to_string())))
            .unwrap_err()
            .message,
        "Failed to create topic events: EXISTS"
    );
}

#[test]
fn the_first_failed_deletion_is_told() {
    assert!(check_deletions(&vec![Ok("a".to_string())]).is_ok());
    let results = vec![
        Ok("a".to_string()),
        Err(("b".to_string(), "GONE".to_string())),
        Err(("c".to_string(), "DENIED".to_string())),
    ];
    assert_eq!(
        check_deletions(&results).unwrap_err().message,
        "Failed to delete topic b: GONE"
    );
}

fn offsets_args(timestamp: Option<&str>, group: Option<&str>) -> kafq::commands::topic_offsets::Args {
    kafq::commands::topic_offsets::Args {
        topic: "events".to_string(),
        timestamp: timestamp.map(|t| t.to_string()),
        group: group.map(|g| g.to_string()),
    }
}

#[test]
fn a_timestamp_takes_precedence_over_a_group() {
    let args = offsets_args(Some("5"), Some("mine"));
    assert_eq!(lookup_of(&args), Ok(Lookup::Timestamp(5)));
    assert_eq!(lookup_group(&args, Lookup::Timestamp(5), 9), "kafq-offsets-9");

    let args = offsets_args(None, Some("mine"));
    assert_eq!(lookup_of(&args), Ok(Lookup::Committed));
    assert_eq!(lookup_group(&args, Lookup::Committed, 9), "mine");

    let args = offsets_args(None, None);
    assert_eq!(lookup_of(&args), Ok(Lookup::Watermarks));
    assert_eq!(lookup_group(&args, Lookup::Watermarks, 9), "kafq-offsets-9");

    let args = offsets_args(Some("x"), Some("mine"));
    assert_eq!(lookup_of(&args).unwrap_err().message, "Invalid timestamp \"x\"");
}

#[test]
fn looked_up_offsets_are_shown() {
    let mut list = TopicPartitionList::new();
    list.add_partition_offset("events", 0, rdkafka::Offset::Offset(4)).unwrap();
    list.add_partition_offset("events", 1, rdkafka::Offset::End).unwrap();
    list.add_partition_offset("events", 2, rdkafka::Offset::Beginning).unwrap();
    list.add_partition_offset("events", 3, rdkafka::Offset::Stored).unwrap();
    list.add_partition_offset("events", 4, rdkafka::Offset::OffsetTail(6)).unwrap();
    list.add_partition("events", 5);

    let at_time: Vec<String> = (0..6)
        .map(|p| timestamp_offset(&list, "events", p).unwrap().offset)
        .collect();
    assert_eq!(at_time, vec!["4", "-1", "-1", "-1", "-1", "-1"]);
    assert_eq!(
        timestamp_offset(&list, "events", 9).unwrap_err().message,
        "Timestamp offset lookup returned no result for topic events partition 9"
    );

    let committed = committed_offsets(&list, "events", &vec![0, 1, 2, 3, 4, 5]).unwrap();
    assert_eq!(committed.topic, "events");
    let shown: Vec<(i32, &str)> = committed
        .partitions
        .iter()
        .map(|p| (p.partition, p.offset.as_str()))
        .collect();
    assert_eq!(
        shown,
        vec![
            (0, "4"),
            (1, "End"),
            (2, "Beginning"),
            (3, "Stored"),
            (4, "OffsetTail(6)"),
            (5, "-1")
        ]
    );
    assert_eq!(
        committed_offsets(&list, "events", &vec![0, 9]).unwrap_err().message,
        "Committed offset lookup returned no result for topic events partition 9"
    );
}

#[test]
fn committed_queries_hold_no_offsets() {
    let list = partition_list("events", &vec![1, 0]);
    assert_eq!(list.count(), 2);
    assert_eq!(list.elements()[0].partition(), 1);
    assert_eq!(list.elements()[1].partition(), 0);
    assert_eq!(list.elements()[0].offset(), rdkafka::Offset::Invalid);
}

#[test]
fn watermarks_are_texts() {
    let shown = watermark(2, 1, i64::MAX);
    assert_eq!(shown.partition, 2);
    assert_eq!(shown.low, "1");
    assert_eq!(shown.high, "9223372036854775807");
    assert_eq!(shown.offset, "9223372036854775807");
}

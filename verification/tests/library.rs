use bridge_core::apply::{offsets_to_commit, ApplyOffsetsError};
use bridge_core::cli::{
    optional_properties, optional_properties_with_group, parse_csv_input, parse_duration_secs, parse_property,
    CsvInput, KafkaConnection,
};
use bridge_core::csv_import::snapshot_from_csv;
use bridge_core::client::{KafkaBridgeClient, KafkaBridgeConfig, OffsetSource};
use bridge_core::committed::{collect_committed_offsets, Metadata};
use bridge_core::errors::{KafkaError, TransformationError};
use bridge_core::message::{ConsumedMessage, MessageHeader};
use bridge_core::subscriptions::Subscriptions;
use bridge_core::out_of_band::{
    checked_partcnt_warning, parse_offset_warning_message, parse_partcnt_warning_message, partcnt_from_captures,
    partcnt_notice, OutOfBandError,
};
use bridge_core::partition::{Message, PartitionEvent, PartitionRecord, PartitionRecordStreamConsumer};
use bridge_core::record::{
    filter_by_topics, get_unique_topics_from_offset_snapshot, group_by_consumer, snapshot_to_csv, OffsetRecord,
};
use bridge_core::routing::batch_by_partition;
use bridge_core::search::TargetOffsetSearch;
use bridge_core::transform::{topics_to_subscribe, Transformations};
use bridge_core::text::{format_i64, join_strings, split_once};
use bridge_core::watermarks::TopicPartitionWatermarks;

fn record(group: &str, topic: &str, partition: i32, offset: i64) -> OffsetRecord {
    OffsetRecord::new(topic, group, partition, offset)
}

#[test]
fn csv_input_dash_is_stdin() {
    assert!(matches!(parse_csv_input("-"), CsvInput::Stdin));
    match parse_csv_input("offsets.csv") {
        CsvInput::File(p) => assert_eq!(p, "offsets.csv"),
        CsvInput::Stdin => panic!("Expected a file"),
    }
    assert_eq!(CsvInput::Stdin.describe(), "stdin");
    assert_eq!(CsvInput::File("a/b.csv".to_string()).describe(), "a/b.csv");
    assert!(matches!(CsvInput::default(), CsvInput::Stdin));
}

#[test]
fn property_values_are_split_at_the_first_equals_sign() {
    assert_eq!(parse_property("").unwrap(), vec![]);
    assert_eq!(
        parse_property("ssl.key.password=a=b").unwrap(),
        vec![("ssl.key.password".to_string(), "a=b".to_string())]
    );
    assert_eq!(parse_property("k=").unwrap(), vec![("k".to_string(), String::new())]);
    assert_eq!(
        parse_property("novalue").unwrap_err(),
        "Property 'novalue' must be in format 'key=value'"
    );
}

#[test]
fn durations_are_whole_seconds() {
    assert_eq!(parse_duration_secs("5").unwrap(), 5);
    assert_eq!(parse_duration_secs("+7").unwrap(), 7);
    let err = parse_duration_secs("5s").unwrap_err();
    assert!(err.starts_with("5s could not be parsed to seconds. Reason: "));
    assert!(parse_duration_secs("-1").is_err());
    assert!(parse_duration_secs("18446744073709551616").is_err());
    assert_eq!(parse_duration_secs("18446744073709551615").unwrap(), u64::MAX);
}

#[test]
fn connection_gives_consumer_properties_with_its_bootstrap_server() {
    let conn = KafkaConnection {
        bootstrap_server: "broker:9092".to_string(),
        properties: vec![
            ("bootstrap.servers".to_string(), "other:1".to_string()),
            ("group.id".to_string(), "g".to_string()),
        ],
        topics: vec![],
    };
    let props = conn.to_consumer_properties();
    assert_eq!(props.get("bootstrap.servers"), Some("broker:9092"));
    assert_eq!(props.get("group.id"), Some("g"));
}

#[test]
fn bridge_config_keeps_bootstrap_server_unless_overridden() {
    let config = KafkaBridgeConfig::new("b1:9092".to_string());
    assert_eq!(config.bootstrap_server(), "b1:9092");
    let config = config.set_properties(vec![("acks".to_string(), "all".to_string())]);
    assert_eq!(config.bootstrap_server(), "b1:9092");
    assert_eq!(
        config.properties(),
        vec![
            ("bootstrap.servers".to_string(), "b1:9092".to_string()),
            ("acks".to_string(), "all".to_string()),
        ]
    );
    let config = config.set_properties(vec![("bootstrap.servers".to_string(), "b2:9092".to_string())]);
    assert_eq!(config.bootstrap_server(), "b2:9092");
    let copy = config.clone();
    assert_eq!(copy.properties(), config.properties());
    let client: KafkaBridgeClient = config.into();
    assert_eq!(client.config().bootstrap_server(), "b2:9092");
    let props = client.config().consumer_properties();
    assert_eq!(props.get("bootstrap.servers"), Some("b2:9092"));
    assert_eq!(props.get("group.id"), Some("kbridge"));
}

#[test]
fn connection_gives_bridge_config() {
    let conn = KafkaConnection {
        bootstrap_server: "broker:9092".to_string(),
        properties: vec![("linger.ms".to_string(), "5".to_string())],
        topics: vec!["t".to_string()],
    };
    let config = conn.to_bridge_config();
    assert_eq!(config.bootstrap_server(), "broker:9092");
    assert_eq!(config.properties().len(), 2);
}

#[test]
fn offset_sources_compare_by_topic() {
    assert!(OffsetSource::GroupCoordinator == OffsetSource::GroupCoordinator);
    assert!(OffsetSource::Topic("a".to_string()) == OffsetSource::Topic("a".to_string()));
    assert!(OffsetSource::Topic("a".to_string()) != OffsetSource::Topic("b".to_string()));
    assert!(OffsetSource::GroupCoordinator != OffsetSource::Topic("a".to_string()));
}

#[test]
fn nothing_to_apply_is_an_error() {
    let snapshot = vec![record("g", "t1", 0, 1)];
    let result = offsets_to_commit(&vec!["t2".to_string()], &snapshot, false);
    assert!(matches!(result, Err(ApplyOffsetsError::NoOffsetsToApply)));
    assert_eq!(
        ApplyOffsetsError::NoOffsetsToApply.message(),
        "No offsets to apply (input is empty or no matching topics)"
    );
    assert!(matches!(offsets_to_commit(&vec![], &vec![], true), Err(ApplyOffsetsError::NoOffsetsToApply)));
}

#[test]
fn offsets_are_committed_per_group_except_in_a_dry_run() {
    let snapshot = vec![
        record("g1", "t1", 0, 10),
        record("g2", "t1", 1, 20),
        record("g1", "t2", 0, 30),
        record("g1", "t3", 0, 40),
    ];
    let topics = vec!["t1".to_string(), "t2".to_string()];
    let plan = offsets_to_commit(&topics, &snapshot, false).unwrap();
    assert_eq!(
        plan,
        vec![
            ("g1".to_string(), vec![("t1".to_string(), 0, 10), ("t2".to_string(), 0, 30)]),
            ("g2".to_string(), vec![("t1".to_string(), 1, 20)]),
        ]
    );
    assert_eq!(offsets_to_commit(&topics, &snapshot, true).unwrap(), vec![]);
}

#[test]
fn records_are_filtered_and_grouped() {
    let snapshot = vec![record("g1", "a", 0, 1), record("g2", "b", 0, 2), record("g1", "a", 1, 3)];
    assert_eq!(filter_by_topics(&snapshot, &vec![]), snapshot);
    assert_eq!(filter_by_topics(&snapshot, &vec!["b".to_string()]), vec![record("g2", "b", 0, 2)]);
    let grouped = group_by_consumer(&snapshot);
    assert_eq!(grouped.len(), 2);
    assert_eq!(grouped[0].1, vec![("a".to_string(), 0, 1), ("a".to_string(), 1, 3)]);
    let mut topics = get_unique_topics_from_offset_snapshot(&snapshot);
    topics.sort();
    assert_eq!(topics, vec!["a".to_string(), "b".to_string()]);
}

#[test]
fn metadata_keeps_wanted_topics_with_partitions() {
    let cluster = vec![
        ("a".to_string(), vec![0, 1]),
        ("b".to_string(), vec![0]),
        ("empty".to_string(), vec![]),
        ("a".to_string(), vec![2]),
    ];
    let all = Metadata::new(&vec![], &cluster, vec!["g".to_string()]);
    assert_eq!(
        all.topics_and_partitions,
        vec![("a".to_string(), vec![0, 1, 2]), ("b".to_string(), vec![0])]
    );
    assert_eq!(all.consumer_groups, vec!["g".to_string()]);
    let some = Metadata::new(&vec!["b".to_string()], &cluster, vec![]);
    assert_eq!(some.topics_and_partitions, vec![("b".to_string(), vec![0])]);
}

#[test]
fn committed_offsets_skip_missing_and_unwanted_ones() {
    let metadata = Metadata::new(&vec!["a".to_string()], &vec![("a".to_string(), vec![0])], vec![]);
    let offsets = vec![
        ("a".to_string(), 0, Some(42)),
        ("a".to_string(), 1, Some(-1001)),
        ("a".to_string(), 2, None),
        ("b".to_string(), 0, Some(7)),
    ];
    let mut snapshot = vec![record("x", "y", 0, 0)];
    collect_committed_offsets(&metadata, "g", &offsets, &mut snapshot);
    assert_eq!(snapshot, vec![record("x", "y", 0, 0), record("g", "a", 0, 42)]);

    let everything = Metadata::new(&vec![], &vec![], vec![]);
    let mut snapshot = vec![];
    collect_committed_offsets(&everything, "g", &offsets, &mut snapshot);
    assert_eq!(snapshot, vec![record("g", "a", 0, 42), record("g", "b", 0, 7)]);
}

#[test]
fn partition_records_hold_message_metadata() {
    let headers = vec![
        ("h".to_string(), vec![1u8]),
        ("k".to_string(), vec![2u8]),
        ("h".to_string(), vec![3u8]),
    ];
    let mut rec = PartitionRecord::from_parts(1, 10, 1000, &headers);
    assert_eq!(rec.partition(), 1);
    assert_eq!(rec.offset(), 10);
    assert_eq!(rec.timestamp(), 1000);
    assert_eq!(rec.header("h"), Some(vec![3u8]));
    assert_eq!(rec.header("none"), None);
    assert_eq!(rec.headers().len(), 2);
    rec.set_header("k", vec![9]);
    rec.set_offset(11);
    rec.set_partition(2);
    rec.set_timestamp(-1);
    assert_eq!(rec.header("k"), Some(vec![9u8]));
    assert_eq!((rec.partition(), rec.offset(), rec.timestamp()), (2, 11, -1));
    let copy = PartitionRecord::from_message(&rec);
    assert_eq!(copy.headers(), rec.headers());

    let event = PartitionEvent::Message(rec);
    assert_eq!(event.as_message().map(|m| m.offset()), Some(11));
    let seeked: PartitionEvent<PartitionRecord> = PartitionEvent::Seeked;
    assert!(seeked.as_message().is_none());
}

#[test]
fn partition_consumers_need_a_topic_with_partitions() {
    let c = PartitionRecordStreamConsumer::for_partition("t".to_string(), 3, Some(("t".to_string(), 4))).ok().unwrap();
    assert_eq!(c.topic(), "t");
    assert_eq!(c.partition(), 3);
    assert!(matches!(
        PartitionRecordStreamConsumer::for_partition("t".to_string(), 3, None),
        Err(KafkaError::TopicNotFound(t)) if t == "t"
    ));
    assert!(matches!(
        PartitionRecordStreamConsumer::for_partition("t".to_string(), 3, Some(("t".to_string(), 0))),
        Err(KafkaError::PartitionNotFound(t, 3)) if t == "t"
    ));
}

#[test]
fn kafka_error_messages() {
    assert_eq!(
        KafkaError::TopicNotFound("t".to_string()).message(),
        "topic `t` could not be found on the remote server"
    );
    assert_eq!(
        KafkaError::PartitionNotFound("t".to_string(), -2).message(),
        "partition `-2` of topic `t` could not be found on the remote server"
    );
    assert_eq!(KafkaError::InvalidSeek.message(), "detected invalid seek from rdkafka");
    assert_eq!(KafkaError::Generic("x".to_string()).message(), "x");
    assert_eq!(KafkaError::Unknown("x".to_string()).message(), "Unknown Kafka error: x");
}

#[test]
fn offset_warnings_name_their_topic() {
    assert_eq!(
        parse_offset_warning_message("[thrd:main]: orders [0]: offset reset").as_deref(),
        Some("orders")
    );
    assert_eq!(parse_offset_warning_message("nospace"), None);
    assert_eq!(parse_offset_warning_message("one space"), None);
}

#[test]
fn partition_count_warnings() {
    let msg = "[thrd:main]: Topic orders partition count changed from 4 to 2";
    assert_eq!(parse_partcnt_warning_message(msg), Some(("orders".to_string(), 4, 2)));
    assert!(matches!(
        partcnt_notice(&Some(("orders".to_string(), 4, 2))),
        Some((t, OutOfBandError::PartitionCountShrunk)) if t == "orders"
    ));
    assert!(partcnt_notice(&Some(("orders".to_string(), 2, 4))).is_none());
    assert_eq!(parse_partcnt_warning_message("[thrd:main]: something else"), None);
    assert_eq!(checked_partcnt_warning("x Topic t partition count changed from 99999999999 to 1"), None);
    assert_eq!(checked_partcnt_warning(msg), Some(Some(("orders".to_string(), 4, 2))));
    assert_eq!(OutOfBandError::PartitionCountShrunk.message(), "Partitions count shrunk");
    assert_eq!(OutOfBandError::Other("x".to_string()).message(), "Other out-of-band error: x");
}

#[test]
fn text_helpers() {
    assert_eq!(format_i64(i64::MIN), "-9223372036854775808");
    assert_eq!(format_i64(0), "0");
    assert_eq!(join_strings(&vec!["a".to_string(), "b".to_string()], ","), "a,b");
    assert_eq!(split_once("a b c", ' '), Some(("a".to_string(), "b c".to_string())));
    assert_eq!(split_once("abc", ' '), None);
}

fn header_message(topic: &str, partition: i32, offset: i64, source: i64) -> ConsumedMessage {
    ConsumedMessage::new(
        topic,
        partition,
        offset,
        Some(vec![MessageHeader {
            key: "src".to_string(),
            value: Some(source.to_string().into_bytes()),
        }]),
    )
}

#[test]
fn search_maps_source_offsets() {
    let mut watermarks = TopicPartitionWatermarks::new();
    watermarks.insert("t".to_string(), 0, 0, 10);
    let sources = vec![record("g", "t", 0, 105)];
    let mut search = TargetOffsetSearch::new("src", sources, watermarks).ok().unwrap();
    assert_eq!(search.topic_selector(), "t");
    assert!(!search.is_done());

    // the first message carries source offset 100: jump 5 ahead
    let m = header_message("t", 0, 0, 100);
    assert!(search.can_process(&m));
    assert_eq!(search.on_message(&m).ok().unwrap(), Some(5));
    // at target offset 5 the source offset is the one searched for
    let m = header_message("t", 0, 5, 105);
    assert!(search.can_process(&m));
    assert_eq!(search.on_message(&m).ok().unwrap(), None);
    let m = header_message("t", 0, 9, 109);
    assert_eq!(search.on_message(&m).ok().unwrap(), None);
    assert!(search.is_done());
    let t = search.finish().ok().unwrap();
    assert_eq!(t.get("g").unwrap(), &vec![("t".to_string(), 0, 105, 5)]);
}

#[test]
fn search_falls_back_to_nearest_offset() {
    let mut watermarks = TopicPartitionWatermarks::new();
    watermarks.insert("t".to_string(), 0, 0, 2);
    let sources = vec![record("g", "t", 0, 50)];
    let mut search = TargetOffsetSearch::new("src", sources, watermarks).ok().unwrap();
    let m = header_message("t", 0, 1, 60);
    let _ = search.on_message(&m);
    assert!(search.is_done());
    let t = search.finish().ok().unwrap();
    assert_eq!(t.get("g").unwrap(), &vec![("t".to_string(), 0, 50, 60)]);
}

#[test]
fn search_without_partitions_is_an_error() {
    let result = TargetOffsetSearch::new("src", vec![record("g", "t", 0, 1)], TopicPartitionWatermarks::new());
    assert!(matches!(result, Err(TransformationError::NoPartitionsToSearch(t)) if t == vec!["t".to_string()]));
}

fn plain(topic: &str, partition: i32, offset: i64) -> ConsumedMessage {
    ConsumedMessage::new(topic, partition, offset, None)
}

fn keys(batch: &(String, i32, Vec<ConsumedMessage>)) -> (String, i32, Vec<i64>) {
    (batch.0.clone(), batch.1, batch.2.iter().map(|m| m.offset).collect())
}

#[test]
fn records_are_batched_by_partition_in_topic_order() {
    let records = vec![
        plain("b", 0, 1),
        plain("a", 1, 2),
        plain("a", 1, 3),
        plain("b", 0, 4),
        plain("a", 0, 5),
        plain("a", 1, 6),
    ];
    let batches: Vec<_> = batch_by_partition(records).iter().map(keys).collect();
    assert_eq!(
        batches,
        vec![
            ("a".to_string(), 1, vec![2, 3]),
            ("a".to_string(), 0, vec![5]),
            ("a".to_string(), 1, vec![6]),
            ("b".to_string(), 0, vec![1, 4]),
        ]
    );
    assert!(batch_by_partition(vec![]).is_empty());
}

#[test]
fn mappings_give_target_offsets() {
    let mut t = Transformations::new();
    t.insert("g1".to_string(), vec![("t".to_string(), 0, 100, 7), ("t".to_string(), 1, 50, 9)]);
    t.insert("g2".to_string(), vec![("u".to_string(), 2, 3, 4)]);
    assert_eq!(
        t.target_offsets(),
        vec![record("g1", "t", 0, 7), record("g1", "t", 1, 9), record("g2", "u", 2, 4)]
    );
    let into = t.clone().into_entries();
    assert_eq!(into.len(), 2);
}

#[test]
fn snapshots_written_as_csv_read_back_the_same() {
    let snapshot = vec![record("g1", "t", 0, 5), record("g1", "t", 1, -1), record("g2", "a", 3, 9)];
    let text = snapshot_to_csv(&snapshot);
    assert_eq!(text, "g1,t,0,5\ng1,t,1,-1\ng2,a,3,9\n");
    assert_eq!(snapshot_from_csv(text.as_bytes()).unwrap(), snapshot);
    assert_eq!(record("g", "t", -2, 7).to_line(), "g,t,-2,7");
}

#[test]
fn optional_properties_need_exactly_one_equals_sign() {
    let given = Some(vec!["a=1".to_string(), "b=2=3".to_string(), "c".to_string(), "=x".to_string()]);
    assert_eq!(
        optional_properties(&given),
        vec![("a".to_string(), "1".to_string()), (String::new(), "x".to_string())]
    );
    assert_eq!(optional_properties(&None), vec![]);
    let with_group = optional_properties_with_group(&given);
    assert_eq!(with_group.last().unwrap(), &("group.id".to_string(), "bridge-consumer-group".to_string()));
    let own_group = Some(vec!["group.id=mine".to_string()]);
    assert_eq!(optional_properties_with_group(&own_group), vec![("group.id".to_string(), "mine".to_string())]);
}

#[test]
fn topics_to_subscribe_are_joined() {
    assert_eq!(topics_to_subscribe(&vec!["a".to_string(), "b".to_string()]).unwrap(), "a,b");
    assert!(matches!(
        topics_to_subscribe(&vec![]),
        Err(TransformationError::InvalidInput(m)) if m == "Topics list cannot be empty"
    ));
}

#[test]
fn partition_counts_are_read_from_the_captured_texts() {
    assert_eq!(partcnt_from_captures("orders".to_string(), "12", "4"), ("orders".to_string(), 12, 4));
    assert_eq!(partcnt_from_captures("t".to_string(), "0", "4294967295"), ("t".to_string(), 0, u32::MAX));
}

#[test]
fn seeks_and_batches_need_a_subscriber() {
    let mut subscriptions = Subscriptions::new();
    assert!(!subscriptions.is_subscribed("orders", 1));
    subscriptions.subscribe("orders".to_string(), 1);
    subscriptions.subscribe("payments".to_string(), 0);
    assert!(subscriptions.is_subscribed("orders", 1));
    assert!(subscriptions.check_seek("orders", 1).is_ok());
    assert_eq!(
        subscriptions.check_seek("orders", 2),
        Err("No subscriber for topic partition `orders:2`".to_string())
    );
    subscriptions.unsubscribe("orders", 1);
    assert!(!subscriptions.is_subscribed("orders", 1));
    assert!(subscriptions.is_subscribed("payments", 0));
    subscriptions.clear();
    assert_eq!(
        subscriptions.check_seek("payments", 0),
        Err("No subscriber for topic partition `payments:0`".to_string())
    );
}

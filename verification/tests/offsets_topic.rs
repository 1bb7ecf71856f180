use bridge_core::errors::ReadOffsetsTopicError;
use bridge_core::offsets_topic::{
    decode_offset_commit_key, decode_offset_commit_value, partitions_of_offsets_topic, DecodeError,
    read_deliveries, Delivery, OffsetAccumulator, OffsetCommitKey, OffsetsTopicReader,
};
use bridge_core::record::OffsetRecord;

fn encode_string(out: &mut Vec<u8>, s: &str) {
    out.extend_from_slice(&(s.len() as i16).to_be_bytes());
    out.extend_from_slice(s.as_bytes());
}

fn encode_offset_commit_key(version: i16, group: &str, topic: &str, partition: i32) -> Vec<u8> {
    let mut key = version.to_be_bytes().to_vec();
    encode_string(&mut key, group);
    encode_string(&mut key, topic);
    key.extend_from_slice(&partition.to_be_bytes());
    key
}

fn encode_group_metadata_key(group: &str) -> Vec<u8> {
    let mut key = 2i16.to_be_bytes().to_vec();
    encode_string(&mut key, group);
    key
}

/// A version 3 value: offset, leader epoch, metadata and commit timestamp.
fn encode_offset_commit_value(offset: i64) -> Vec<u8> {
    let mut value = 3i16.to_be_bytes().to_vec();
    value.extend_from_slice(&offset.to_be_bytes());
    value.extend_from_slice(&(-1i32).to_be_bytes());
    encode_string(&mut value, "");
    value.extend_from_slice(&1_700_000_000_000i64.to_be_bytes());
    value
}

enum ConsumerOffsetsRecord {
    OffsetCommit { group: &'static str, topic: &'static str, partition: i32, offset: i64 },
    Tombstone { group: &'static str, topic: &'static str, partition: i32 },
    GroupMetadata { group: &'static str },
}

fn apply(accumulator: &mut OffsetAccumulator, record: ConsumerOffsetsRecord) {
    match record {
        ConsumerOffsetsRecord::OffsetCommit { group, topic, partition, offset } => {
            let key = encode_offset_commit_key(1, group, topic, partition);
            let value = encode_offset_commit_value(offset);
            accumulator.apply(Some(&key), Some(&value));
        }
        ConsumerOffsetsRecord::Tombstone { group, topic, partition } => {
            let key = encode_offset_commit_key(1, group, topic, partition);
            accumulator.apply(Some(&key), None);
        }
        ConsumerOffsetsRecord::GroupMetadata { group } => {
            let key = encode_group_metadata_key(group);
            accumulator.apply(Some(&key), Some(&[0u8, 3, 0, 0]));
        }
    }
}

fn commit(group: &'static str, topic: &'static str, partition: i32, offset: i64) -> ConsumerOffsetsRecord {
    ConsumerOffsetsRecord::OffsetCommit { group, topic, partition, offset }
}

fn record(group: &str, topic: &str, partition: i32, offset: i64) -> OffsetRecord {
    OffsetRecord::new(topic, group, partition, offset)
}

#[test]
fn decode_key_version_0() {
    let key = encode_offset_commit_key(0, "group-a", "orders", 3);
    assert_eq!(
        decode_offset_commit_key(&key).unwrap(),
        OffsetCommitKey::Offset {
            group: "group-a".to_string(),
            topic: "orders".to_string(),
            partition: 3,
        }
    );
}

#[test]
fn decode_key_version_1() {
    let key = encode_offset_commit_key(1, "group-b", "payments", 0);
    assert_eq!(
        decode_offset_commit_key(&key).unwrap(),
        OffsetCommitKey::Offset {
            group: "group-b".to_string(),
            topic: "payments".to_string(),
            partition: 0,
        }
    );
}

#[test]
fn decode_key_version_2_is_group_metadata() {
    let key = encode_group_metadata_key("group-a");
    assert_eq!(decode_offset_commit_key(&key).unwrap(), OffsetCommitKey::GroupMetadata);
}

#[test]
fn decode_key_negative_version_is_unsupported() {
    let key = (-1i16).to_be_bytes().to_vec();
    assert_eq!(decode_offset_commit_key(&key), Err(DecodeError::UnsupportedVersion(-1)));
}

#[test]
fn decode_key_truncated_returns_error() {
    let key = encode_offset_commit_key(1, "group-a", "orders", 0);
    assert_eq!(
        decode_offset_commit_key(&key[..key.len() - 2]),
        Err(DecodeError::UnexpectedEndOfData(key.len() - 4))
    );
}

#[test]
fn decode_key_empty_returns_error() {
    assert_eq!(decode_offset_commit_key(&[]), Err(DecodeError::UnexpectedEndOfData(0)));
}

#[test]
fn decode_key_invalid_utf8_returns_error() {
    let mut key = 0i16.to_be_bytes().to_vec();
    key.extend_from_slice(&2i16.to_be_bytes());
    key.extend_from_slice(&[0xff, 0xfe]);
    assert_eq!(decode_offset_commit_key(&key), Err(DecodeError::InvalidUtf8));
}

#[test]
fn decode_key_negative_string_length_returns_error() {
    let mut key = 1i16.to_be_bytes().to_vec();
    key.extend_from_slice(&(-3i16).to_be_bytes());
    assert_eq!(decode_offset_commit_key(&key), Err(DecodeError::InvalidStringLength(-3)));
}

#[test]
fn decode_value_reads_offset_and_ignores_trailing_fields() {
    let value = encode_offset_commit_value(1042);
    assert_eq!(decode_offset_commit_value(&value).unwrap(), 1042);
}

#[test]
fn decode_value_version_0_minimal() {
    let mut value = 0i16.to_be_bytes().to_vec();
    value.extend_from_slice(&77i64.to_be_bytes());
    assert_eq!(decode_offset_commit_value(&value).unwrap(), 77);
}

#[test]
fn decode_value_unsupported_version_returns_error() {
    let mut value = 5i16.to_be_bytes().to_vec();
    value.extend_from_slice(&77i64.to_be_bytes());
    assert_eq!(decode_offset_commit_value(&value), Err(DecodeError::UnsupportedVersion(5)));
}

#[test]
fn decode_value_truncated_returns_error() {
    let value = 3i16.to_be_bytes().to_vec();
    assert_eq!(decode_offset_commit_value(&value), Err(DecodeError::UnexpectedEndOfData(2)));
}

#[test]
fn decode_value_negative_offset() {
    let mut value = 1i16.to_be_bytes().to_vec();
    value.extend_from_slice(&(-5i64).to_be_bytes());
    assert_eq!(decode_offset_commit_value(&value).unwrap(), -5);
}

#[test]
fn accumulator_keeps_last_commit_per_key() {
    let mut accumulator = OffsetAccumulator::new(vec![]);
    apply(&mut accumulator, commit("group-a", "orders", 0, 10));
    apply(&mut accumulator, commit("group-a", "orders", 0, 25));
    apply(&mut accumulator, commit("group-a", "orders", 1, 5));

    let expected = vec![record("group-a", "orders", 0, 25), record("group-a", "orders", 1, 5)];
    assert_eq!(accumulator.into_snapshot(), expected);
}

#[test]
fn accumulator_tombstone_drops_key() {
    let mut accumulator = OffsetAccumulator::new(vec![]);
    apply(&mut accumulator, commit("group-a", "orders", 0, 10));
    apply(&mut accumulator, commit("group-b", "orders", 0, 20));
    apply(
        &mut accumulator,
        ConsumerOffsetsRecord::Tombstone { group: "group-a", topic: "orders", partition: 0 },
    );

    let expected = vec![record("group-b", "orders", 0, 20)];
    assert_eq!(accumulator.into_snapshot(), expected);
}

#[test]
fn accumulator_commit_after_tombstone_restores_key() {
    let mut accumulator = OffsetAccumulator::new(vec![]);
    apply(&mut accumulator, commit("group-a", "orders", 0, 10));
    apply(
        &mut accumulator,
        ConsumerOffsetsRecord::Tombstone { group: "group-a", topic: "orders", partition: 0 },
    );
    apply(&mut accumulator, commit("group-a", "orders", 0, 30));

    let expected = vec![record("group-a", "orders", 0, 30)];
    assert_eq!(accumulator.into_snapshot(), expected);
}

#[test]
fn accumulator_skips_group_metadata_records() {
    let mut accumulator = OffsetAccumulator::new(vec![]);
    apply(&mut accumulator, ConsumerOffsetsRecord::GroupMetadata { group: "group-a" });
    apply(&mut accumulator, commit("group-a", "orders", 0, 10));

    let expected = vec![record("group-a", "orders", 0, 10)];
    assert_eq!(accumulator.into_snapshot(), expected);
}

#[test]
fn accumulator_filters_on_decoded_topic() {
    let mut accumulator = OffsetAccumulator::new(vec!["orders".to_string()]);
    apply(&mut accumulator, commit("group-a", "orders", 0, 10));
    apply(&mut accumulator, commit("group-a", "payments", 0, 20));

    let expected = vec![record("group-a", "orders", 0, 10)];
    assert_eq!(accumulator.into_snapshot(), expected);
}

#[test]
fn accumulator_skips_undecodable_records() {
    let mut accumulator = OffsetAccumulator::new(vec![]);
    accumulator.apply(Some(&[0xff]), Some(&encode_offset_commit_value(10)));
    accumulator.apply(Some(&encode_offset_commit_key(1, "group-a", "orders", 0)), Some(&[0xff]));
    accumulator.apply(None, Some(&encode_offset_commit_value(10)));
    apply(&mut accumulator, commit("group-a", "orders", 0, 42));

    let expected = vec![record("group-a", "orders", 0, 42)];
    assert_eq!(accumulator.into_snapshot(), expected);
}

#[test]
fn accumulator_orders_records_by_group_topic_partition() {
    let mut accumulator = OffsetAccumulator::new(vec![]);
    apply(&mut accumulator, commit("group-b", "orders", 0, 1));
    apply(&mut accumulator, commit("group-a", "payments", 2, 2));
    apply(&mut accumulator, commit("group-a", "orders", 1, 3));
    assert_eq!(accumulator.len(), 3);
    let expected = vec![
        record("group-a", "orders", 1, 3),
        record("group-a", "payments", 2, 2),
        record("group-b", "orders", 0, 1),
    ];
    assert_eq!(accumulator.into_snapshot(), expected);
}

#[test]
fn reader_finishes_at_captured_end_offsets() {
    // partition 0 holds offsets 0..2, partition 1 is empty
    let watermarks = vec![(0, 0i64, 2i64), (1, 5i64, 5i64)];
    assert!(OffsetsTopicReader::spans_fit(&watermarks));
    let mut reader = OffsetsTopicReader::new(&watermarks, vec![]);
    assert_eq!(reader.total(), 2);
    assert!(!reader.is_done());
    assert_eq!(reader.remaining(), vec![0]);

    let key = encode_offset_commit_key(1, "g", "t", 4);
    reader.on_record(0, 0, Some(&key), Some(&encode_offset_commit_value(7)));
    assert_eq!(reader.read(), 1);
    assert!(!reader.is_done());
    reader.on_record(0, 1, Some(&key), Some(&encode_offset_commit_value(9)));
    assert_eq!(reader.read(), 2);
    assert!(reader.is_done());
    assert_eq!(reader.into_snapshot(), vec![record("g", "t", 4, 9)]);
}

#[test]
fn reader_partition_eof_completes_partition() {
    let watermarks = vec![(0, 0i64, 10i64)];
    let mut reader = OffsetsTopicReader::new(&watermarks, vec![]);
    assert!(!reader.is_done());
    reader.on_partition_eof(0);
    assert!(reader.is_done());
    assert_eq!(reader.into_snapshot(), vec![]);
}

#[test]
fn decode_error_messages() {
    assert_eq!(DecodeError::UnexpectedEndOfData(19).message(), "unexpected end of data at byte 19");
    assert_eq!(DecodeError::InvalidStringLength(-3).message(), "invalid string length -3");
    assert_eq!(DecodeError::InvalidUtf8.message(), "string is not valid UTF-8");
    assert_eq!(DecodeError::UnsupportedVersion(5).message(), "unsupported version 5");
}

#[test]
fn offsets_topic_must_exist_with_partitions() {
    let metadata = vec![("orders".to_string(), vec![0, 1]), ("empty".to_string(), vec![])];
    assert_eq!(partitions_of_offsets_topic(&metadata, "orders").unwrap(), vec![0, 1]);
    assert!(matches!(
        partitions_of_offsets_topic(&metadata, "empty"),
        Err(ReadOffsetsTopicError::TopicNotFound(t)) if t == "empty"
    ));
    assert!(matches!(
        partitions_of_offsets_topic(&metadata, "backup"),
        Err(ReadOffsetsTopicError::TopicNotFound(t)) if t == "backup"
    ));
}

#[test]
fn reading_the_topic_gives_the_records_applied_in_delivery_order() {
    // partition 0 holds offsets 3..6, partition 1 offsets 0..2, partition 2 is empty
    let watermarks = vec![(0, 3i64, 6i64), (1, 0i64, 2i64), (2, 4i64, 4i64)];
    let topics = vec!["orders".to_string()];
    let mut reader = OffsetsTopicReader::new(&watermarks, topics.clone());
    let mut expected = OffsetAccumulator::new(topics);
    assert_eq!(reader.total(), 5);

    let orders = encode_offset_commit_key(1, "g", "orders", 0);
    let other = encode_offset_commit_key(1, "g", "payments", 0);
    let deliveries: Vec<(i32, i64, Vec<u8>, Option<Vec<u8>>)> = vec![
        (1, 0, orders.clone(), Some(encode_offset_commit_value(10))),
        (0, 3, other.clone(), Some(encode_offset_commit_value(11))),
        (0, 4, orders.clone(), None),
        (1, 1, orders.clone(), Some(encode_offset_commit_value(12))),
    ];
    let mut progress = vec![];
    for (partition, offset, key, value) in &deliveries {
        reader.on_record(*partition, *offset, Some(key), value.as_deref());
        expected.apply(Some(key), value.as_deref());
        progress.push((reader.read(), reader.total()));
    }
    assert_eq!(progress, vec![(1, 5), (2, 5), (3, 5), (4, 5)]);
    // partition 1 reached its end; partition 0 ends by its end marker
    assert_eq!(reader.remaining(), vec![0]);
    reader.on_partition_eof(0);
    assert!(reader.is_done());
    let snapshot = reader.into_snapshot();
    assert_eq!(snapshot, expected.into_snapshot());
    assert_eq!(snapshot, vec![record("g", "orders", 0, 12)]);
}

#[test]
fn reading_deliveries_reports_progress_and_applies_records_in_order() {
    let watermarks = vec![(0, 0i64, 2i64), (1, 3i64, 3i64), (2, 7i64, 10i64)];
    let key = encode_offset_commit_key(1, "g", "t", 5);
    let deliveries = vec![
        Delivery::Record { partition: 0, offset: 0, key: Some(key.clone()), value: Some(encode_offset_commit_value(1)) },
        Delivery::Record { partition: 2, offset: 7, key: Some(key.clone()), value: Some(encode_offset_commit_value(8)) },
        Delivery::Record { partition: 0, offset: 1, key: Some(key.clone()), value: Some(encode_offset_commit_value(2)) },
        Delivery::PartitionEof { partition: 2 },
    ];
    let (snapshot, progress, done) = read_deliveries(&watermarks, vec![], &deliveries);
    assert_eq!(snapshot, vec![record("g", "t", 5, 2)]);
    assert_eq!(progress, vec![(1, 5), (2, 5), (3, 5)]);
    assert!(done);

    let first = vec![Delivery::Record {
        partition: 0,
        offset: 0,
        key: Some(key.clone()),
        value: Some(encode_offset_commit_value(1)),
    }];
    let (snapshot, progress, done) = read_deliveries(&watermarks, vec![], &first);
    assert_eq!(snapshot, vec![record("g", "t", 5, 1)]);
    assert_eq!(progress, vec![(1, 5)]);
    assert!(!done);
}

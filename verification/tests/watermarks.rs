use bridge_core::errors::TransformationError;
use bridge_core::message::ConsumedMessage;
use bridge_core::watermarks::{
    get_topic_partition_high_watermark, get_topic_partition_watermarks, update_partitions_to_search,
    TopicPartitionWatermarks,
};

#[test]
fn test_get_topic_partition_watermarks_success() {
    let mut topic_partition_watermarks = TopicPartitionWatermarks::new();
    topic_partition_watermarks.insert("test-topic".to_string(), 0, 0, 100i64);
    topic_partition_watermarks.insert("test-topic".to_string(), 1, 0, 200i64);

    let result = get_topic_partition_high_watermark(&topic_partition_watermarks, "test-topic", 0);

    assert!(matches!(result, Ok(100i64)));
}

#[test]
fn test_get_topic_partition_watermarks_topic_not_found() {
    let topic_partition_watermarks = TopicPartitionWatermarks::new();

    let result =
        get_topic_partition_high_watermark(&topic_partition_watermarks, "nonexistent-topic", 0);

    assert!(result.is_err());
    match result.unwrap_err() {
        TransformationError::InvalidInput(msg) => {
            assert!(msg.contains("No watermark found for topic nonexistent-topic partition 0"));
        }
        _ => panic!("Expected InvalidInput error"),
    }
}

#[test]
fn test_get_topic_partition_watermarks_partition_not_found() {
    let mut topic_partition_watermarks = TopicPartitionWatermarks::new();
    topic_partition_watermarks.insert("test-topic".to_string(), 0, 0, 100i64);

    let result = get_topic_partition_high_watermark(&topic_partition_watermarks, "test-topic", 1);

    assert!(result.is_err());
    match result.unwrap_err() {
        TransformationError::InvalidInput(msg) => {
            assert!(msg.contains("No watermark found for topic test-topic partition 1"));
        }
        _ => panic!("Expected InvalidInput error"),
    }
}

#[test]
fn test_update_partitions_to_check_removes_partition_at_watermark() {
    let mut topic_partition_watermarks = TopicPartitionWatermarks::new();
    // High watermark is 100
    topic_partition_watermarks.insert("test-topic".to_string(), 0, 0, 100i64);

    let mut partitions_to_check = vec![
        ("test-topic".to_string(), 0),
        ("test-topic".to_string(), 1),
        ("other-topic".to_string(), 0),
    ];

    // Message at offset 99, so offset + 1 = 100 = high watermark
    let message = ConsumedMessage::new("test-topic", 0, 99, None);

    update_partitions_to_search(&message, &topic_partition_watermarks, &mut partitions_to_check)
        .unwrap();

    assert_eq!(partitions_to_check.len(), 2);
    assert!(!partitions_to_check.contains(&("test-topic".to_string(), 0)));
    assert!(partitions_to_check.contains(&("test-topic".to_string(), 1)));
    assert!(partitions_to_check.contains(&("other-topic".to_string(), 0)));
}

#[test]
fn test_update_partitions_to_check_keeps_partition_below_watermark() {
    let mut topic_partition_watermarks = TopicPartitionWatermarks::new();
    // High watermark is 100
    topic_partition_watermarks.insert("test-topic".to_string(), 0, 0, 100i64);

    let mut partitions_to_check = vec![("test-topic".to_string(), 0), ("test-topic".to_string(), 1)];

    // Message at offset 98, so offset + 1 = 99 < 100 (high watermark)
    let message = ConsumedMessage::new("test-topic", 0, 98, None);

    update_partitions_to_search(&message, &topic_partition_watermarks, &mut partitions_to_check)
        .unwrap();

    // Partition should still be in the list since we haven't reached the watermark
    assert_eq!(partitions_to_check.len(), 2);
    assert!(partitions_to_check.contains(&("test-topic".to_string(), 0)));
    assert!(partitions_to_check.contains(&("test-topic".to_string(), 1)));
}

#[test]
fn test_update_partitions_to_check_removes_only_matching_partition() {
    let mut topic_partition_watermarks = TopicPartitionWatermarks::new();
    topic_partition_watermarks.insert("test-topic".to_string(), 0, 0, 100i64);
    topic_partition_watermarks.insert("test-topic".to_string(), 1, 0, 200i64);

    let mut partitions_to_check = vec![
        ("test-topic".to_string(), 0),
        ("test-topic".to_string(), 1),
        ("test-topic".to_string(), 2),
    ];

    // Message at offset 99 for partition 0, watermark is 100
    let message = ConsumedMessage::new("test-topic", 0, 99, None);

    update_partitions_to_search(&message, &topic_partition_watermarks, &mut partitions_to_check)
        .unwrap();

    // Only partition 0 should be removed
    assert_eq!(partitions_to_check.len(), 2);
    assert!(!partitions_to_check.contains(&("test-topic".to_string(), 0)));
    assert!(partitions_to_check.contains(&("test-topic".to_string(), 1)));
    assert!(partitions_to_check.contains(&("test-topic".to_string(), 2)));
}

#[test]
fn test_get_topic_partition_watermarks_multiple_topics() {
    let mut topic_partition_watermarks = TopicPartitionWatermarks::new();
    topic_partition_watermarks.insert("topic1".to_string(), 0, 0, 100i64);
    topic_partition_watermarks.insert("topic1".to_string(), 1, 0, 200i64);
    topic_partition_watermarks.insert("topic2".to_string(), 0, 0, 300i64);

    // Test topic1, partition 0
    let result = get_topic_partition_high_watermark(&topic_partition_watermarks, "topic1", 0);
    assert!(result.is_ok());
    assert_eq!(result.unwrap(), 100i64);

    // Test topic1, partition 1
    let result = get_topic_partition_high_watermark(&topic_partition_watermarks, "topic1", 1);
    assert!(result.is_ok());
    assert_eq!(result.unwrap(), 200i64);

    // Test topic2, partition 0
    let result = get_topic_partition_high_watermark(&topic_partition_watermarks, "topic2", 0);
    assert!(result.is_ok());
    assert_eq!(result.unwrap(), 300i64);
}

#[test]
fn test_get_topic_partition_watermarks_empty_map() {
    let topic_partition_watermarks = TopicPartitionWatermarks::new();

    let result = get_topic_partition_high_watermark(&topic_partition_watermarks, "any-topic", 0);

    assert!(result.is_err());
    match result.unwrap_err() {
        TransformationError::InvalidInput(msg) => {
            assert!(msg.contains("No watermark found for topic any-topic partition 0"));
        }
        _ => panic!("Expected InvalidInput error"),
    }
}

#[test]
fn watermarks_give_low_and_high() {
    let mut topic_partition_watermarks = TopicPartitionWatermarks::new();
    topic_partition_watermarks.insert("t".to_string(), 3, 7, 42);
    assert_eq!(get_topic_partition_watermarks(&topic_partition_watermarks, "t", 3).unwrap(), (7, 42));
    // a later insert for the same partition replaces the watermarks
    topic_partition_watermarks.insert("t".to_string(), 3, 8, 50);
    assert_eq!(get_topic_partition_watermarks(&topic_partition_watermarks, "t", 3).unwrap(), (8, 50));
}

#[test]
fn update_partitions_without_watermark_is_an_error() {
    let topic_partition_watermarks = TopicPartitionWatermarks::new();
    let mut partitions_to_check = vec![("t".to_string(), 0)];
    let message = ConsumedMessage::new("t", 0, 5, None);
    let result =
        update_partitions_to_search(&message, &topic_partition_watermarks, &mut partitions_to_check);
    assert!(matches!(result, Err(TransformationError::InvalidInput(_))));
    assert_eq!(partitions_to_check, vec![("t".to_string(), 0)]);
}

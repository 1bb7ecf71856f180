use bridge_core::errors::{TransformationError, TransformationRecord};
use bridge_core::transform::{
    handle_missing_offsets, insert_offset_transformations, NearestOffsets, Transformations,
};

#[test]
fn test_insert_offset_transformations_new_consumer_group() {
    let mut transformations = Transformations::new();
    let consumer_group = "test-group".to_string();
    let topic = "test-topic".to_string();
    let partition = 0;
    let source_offset = 100;
    let target_offset = 200;

    let result = insert_offset_transformations(
        &mut transformations,
        &source_offset,
        &target_offset,
        topic.clone(),
        partition,
        consumer_group.clone(),
    );

    assert!(result.is_ok());
    assert_eq!(transformations.len(), 1);
    assert!(transformations.contains_key(&consumer_group));

    let records = transformations.get(&consumer_group).unwrap();
    assert_eq!(records.len(), 1);
    assert_eq!(records[0], (topic, partition, source_offset, target_offset));
}

#[test]
fn test_insert_offset_transformations_existing_consumer_group() {
    let mut transformations = Transformations::new();
    let consumer_group = "test-group".to_string();

    // Insert initial transformation
    transformations.insert(consumer_group.clone(), vec![("topic1".to_string(), 0, 50, 100)]);

    let topic = "topic2".to_string();
    let partition = 1;
    let source_offset = 150;
    let target_offset = 250;

    let result = insert_offset_transformations(
        &mut transformations,
        &source_offset,
        &target_offset,
        topic.clone(),
        partition,
        consumer_group.clone(),
    );

    assert!(result.is_ok());
    assert_eq!(transformations.len(), 1);

    let records = transformations.get(&consumer_group).unwrap();
    assert_eq!(records.len(), 2);
    assert_eq!(records[0], ("topic1".to_string(), 0, 50, 100));
    assert_eq!(records[1], (topic, partition, source_offset, target_offset));
}

#[test]
fn test_insert_offset_transformations_multiple_consumer_groups() {
    let mut transformations = Transformations::new();

    // Insert for first consumer group
    let result1 = insert_offset_transformations(
        &mut transformations,
        &100,
        &200,
        "topic1".to_string(),
        0,
        "group1".to_string(),
    );

    // Insert for second consumer group
    let result2 = insert_offset_transformations(
        &mut transformations,
        &300,
        &400,
        "topic2".to_string(),
        1,
        "group2".to_string(),
    );

    assert!(result1.is_ok());
    assert!(result2.is_ok());
    assert_eq!(transformations.len(), 2);
    assert!(transformations.contains_key("group1"));
    assert!(transformations.contains_key("group2"));

    let group1_records = transformations.get("group1").unwrap();
    let group2_records = transformations.get("group2").unwrap();
    assert_eq!(group1_records.len(), 1);
    assert_eq!(group2_records.len(), 1);
}

#[test]
fn test_handle_missing_offsets_empty_missing_offsets() {
    let transformations = Transformations::new();
    let missing_offsets = vec![];
    let nearest_offsets = NearestOffsets::new();

    let result = handle_missing_offsets(transformations, missing_offsets, nearest_offsets);

    assert!(result.is_ok());
    assert_eq!(result.unwrap().len(), 0);
}

#[test]
fn test_handle_missing_offsets_with_nearest_offsets_available() {
    let mut transformations = Transformations::new();
    transformations.insert("existing-group".to_string(), vec![("topic1".to_string(), 0, 100, 200)]);

    let missing_offsets = vec![
        ("group1".to_string(), "topic1".to_string(), 0, 150),
        ("group2".to_string(), "topic2".to_string(), 1, 250),
    ];

    let mut nearest_offsets = NearestOffsets::new();
    nearest_offsets.insert(("group1".to_string(), "topic1".to_string(), 0, 150), 175);
    nearest_offsets.insert(("group2".to_string(), "topic2".to_string(), 1, 250), 275);

    let result = handle_missing_offsets(transformations, missing_offsets, nearest_offsets);

    assert!(result.is_ok());
    let final_transformations = result.unwrap();
    assert_eq!(final_transformations.len(), 3);

    // Check existing group is preserved
    assert!(final_transformations.contains_key("existing-group"));

    // Check new groups were added
    assert!(final_transformations.contains_key("group1"));
    assert!(final_transformations.contains_key("group2"));

    let group1_records = final_transformations.get("group1").unwrap();
    let group2_records = final_transformations.get("group2").unwrap();

    assert_eq!(group1_records.len(), 1);
    assert_eq!(group1_records[0], ("topic1".to_string(), 0, 150, 175));

    assert_eq!(group2_records.len(), 1);
    assert_eq!(group2_records[0], ("topic2".to_string(), 1, 250, 275));
}

#[test]
fn test_handle_missing_offsets_add_to_existing_consumer_group() {
    let mut transformations = Transformations::new();
    transformations.insert("test-group".to_string(), vec![("topic1".to_string(), 0, 100, 200)]);

    let missing_offsets = vec![("test-group".to_string(), "topic2".to_string(), 1, 300)];

    let mut nearest_offsets = NearestOffsets::new();
    nearest_offsets.insert(("test-group".to_string(), "topic2".to_string(), 1, 300), 350);

    let result = handle_missing_offsets(transformations, missing_offsets, nearest_offsets);

    assert!(result.is_ok());
    let final_transformations = result.unwrap();
    assert_eq!(final_transformations.len(), 1);

    let test_group_records: &Vec<TransformationRecord> =
        final_transformations.get("test-group").unwrap();
    assert_eq!(test_group_records.len(), 2);
    assert_eq!(test_group_records[0], ("topic1".to_string(), 0, 100, 200));
    assert_eq!(test_group_records[1], ("topic2".to_string(), 1, 300, 350));
}

#[test]
fn test_handle_missing_offsets_no_nearest_offsets_available() {
    let transformations = Transformations::new();
    let missing_offsets = vec![
        ("group1".to_string(), "topic1".to_string(), 0, 150),
        ("group2".to_string(), "topic2".to_string(), 1, 250),
    ];
    let nearest_offsets = NearestOffsets::new(); // No nearest offsets available

    let result = handle_missing_offsets(transformations, missing_offsets.clone(), nearest_offsets);

    assert!(result.is_err());
    match result.unwrap_err() {
        TransformationError::MissingOffsets(still_missing) => {
            assert_eq!(still_missing.len(), 2);
            assert!(still_missing.contains(&("group1".to_string(), "topic1".to_string(), 0, 150)));
            assert!(still_missing.contains(&("group2".to_string(), "topic2".to_string(), 1, 250)));
        }
        _ => panic!("Expected MissingOffsets error"),
    }
}

#[test]
fn test_handle_missing_offsets_partial_nearest_offsets() {
    let transformations = Transformations::new();
    let missing_offsets = vec![
        ("group1".to_string(), "topic1".to_string(), 0, 150),
        ("group2".to_string(), "topic2".to_string(), 1, 250),
    ];

    let mut nearest_offsets = NearestOffsets::new();
    // Only provide nearest offset for group1, not group2
    nearest_offsets.insert(("group1".to_string(), "topic1".to_string(), 0, 150), 175);

    let result = handle_missing_offsets(transformations, missing_offsets, nearest_offsets);

    assert!(result.is_err());
    match result.unwrap_err() {
        TransformationError::MissingOffsets(still_missing) => {
            assert_eq!(still_missing.len(), 1);
            assert_eq!(still_missing[0], ("group2".to_string(), "topic2".to_string(), 1, 250));
        }
        _ => panic!("Expected MissingOffsets error"),
    }
}

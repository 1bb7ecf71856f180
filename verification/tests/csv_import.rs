use bridge_core::csv_import::{
    checked_records_from_lines, convert, import_csv, records_from_lines, snapshot_from_csv, snapshot_from_rows,
    try_convert, CsvOffsetSnapshotImporter, CsvSnapshotError,
};
use bridge_core::record::{import_records, ImportError, OffsetRecord};

#[test]
fn test_convert_success() {
    let csv_line = "test-group,test-topic,0,100".to_string();

    let result = convert(csv_line).unwrap();

    assert_eq!(result.consumer_group, "test-group");
    assert_eq!(result.topic, "test-topic");
    assert_eq!(result.partition, 0);
    assert_eq!(result.offset, 100);
}

#[test]
fn test_convert_invalid_format() {
    let csv_line = "invalid,format".to_string();

    let result = convert(csv_line);

    assert!(result.is_err());
    match result.unwrap_err() {
        ImportError::ParseErrors(errors) => {
            assert!(!errors.is_empty());
        }
        _ => panic!("Expected ParseErrors"),
    }
}

#[test]
fn test_convert_invalid_partition() {
    let csv_line = "test-group,test-topic,invalid,100".to_string();

    let result = convert(csv_line);

    assert!(result.is_err());
    match result.unwrap_err() {
        ImportError::ParseErrors(errors) => {
            assert!(!errors.is_empty());
        }
        _ => panic!("Expected ParseErrors"),
    }
}

#[test]
fn try_convert_of_an_empty_line_is_none() {
    assert!(try_convert(String::new()).is_none());
    assert!(matches!(try_convert("g,t,1,2".to_string()), Some(Ok(_))));
}

#[test]
fn test_import_records_success() {
    let records: Vec<Result<OffsetRecord, String>> = vec![
        Ok(OffsetRecord {
            consumer_group: "group1".to_string(),
            topic: "topic1".to_string(),
            partition: 0,
            offset: 100,
        }),
        Ok(OffsetRecord {
            consumer_group: "group2".to_string(),
            topic: "topic2".to_string(),
            partition: 1,
            offset: 200,
        }),
    ];

    let result = import_records(records).unwrap();

    assert_eq!(result.len(), 2);
    assert_eq!(result[0].consumer_group, "group1");
    assert_eq!(result[0].topic, "topic1");
    assert_eq!(result[0].partition, 0);
    assert_eq!(result[0].offset, 100);
    assert_eq!(result[1].consumer_group, "group2");
    assert_eq!(result[1].topic, "topic2");
    assert_eq!(result[1].partition, 1);
    assert_eq!(result[1].offset, 200);
}

#[test]
fn test_import_records_with_errors() {
    let records = vec![
        Ok(OffsetRecord {
            consumer_group: "group1".to_string(),
            topic: "topic1".to_string(),
            partition: 0,
            offset: 100,
        }),
        Err(std::io::Error::new(std::io::ErrorKind::InvalidData, "parse error").to_string()),
    ];

    let result = import_records(records);

    assert!(result.is_err());
    match result.unwrap_err() {
        ImportError::ParseErrors(errors) => {
            assert_eq!(errors.len(), 1);
            assert!(errors[0].contains("parse error"));
        }
        _ => panic!("Expected ParseErrors"),
    }
}

#[test]
fn test_csv_offset_snapshot_importer_success() {
    let csv_content = "test-group,test-topic,0,100\ntest-group2,test-topic2,1,200";

    let importer = CsvOffsetSnapshotImporter { file_path: "offsets.csv".to_string() };

    let result = importer.import_contents(Some(csv_content.as_bytes().to_vec())).unwrap();

    assert_eq!(result.len(), 2);
    assert_eq!(result[0].consumer_group, "test-group");
    assert_eq!(result[0].topic, "test-topic");
    assert_eq!(result[0].partition, 0);
    assert_eq!(result[0].offset, 100);
    assert_eq!(result[1].consumer_group, "test-group2");
    assert_eq!(result[1].topic, "test-topic2");
    assert_eq!(result[1].partition, 1);
    assert_eq!(result[1].offset, 200);
}

#[test]
fn test_csv_offset_snapshot_importer_file_not_found() {
    let importer =
        CsvOffsetSnapshotImporter { file_path: "/nonexistent/path/file.csv".to_string() };

    // The file cannot be opened: there are no contents to import.
    let result = importer.import_contents(None);

    assert!(result.is_err());
    match result.unwrap_err() {
        ImportError::ResourceNotFound(msg) => {
            assert!(msg.contains("/nonexistent/path/file.csv"));
            assert_eq!(msg, "\"/nonexistent/path/file.csv\" could not be opened.");
        }
        _ => panic!("Expected ResourceNotFound"),
    }
}

#[test]
fn unopened_path_is_shown_as_a_path() {
    let importer = CsvOffsetSnapshotImporter { file_path: "/tmp/it's here.csv".to_string() };
    match importer.import_contents(None) {
        Err(ImportError::ResourceNotFound(msg)) => {
            let path = std::path::PathBuf::from("/tmp/it's here.csv");
            assert_eq!(msg, format!("{:?} could not be opened.", path));
        }
        _ => panic!("Expected ResourceNotFound"),
    }
}

#[test]
fn test_csv_offset_snapshot_importer_invalid_csv() {
    let csv_content = "consumer_group,topic,partition,offset\ntest-group,test-topic,invalid,100";

    let importer = CsvOffsetSnapshotImporter { file_path: "offsets.csv".to_string() };

    let result = importer.import_contents(Some(csv_content.as_bytes().to_vec()));

    assert!(result.is_err());
    match result.unwrap_err() {
        ImportError::ParseErrors(errors) => {
            assert!(!errors.is_empty());
        }
        _ => panic!("Expected ParseErrors"),
    }
}

#[test]
fn test_import_from_csv_should_import_correctly() {
    let data = "consumer,streamiz.weather.combined,0,54
                        consumer,streamiz.weather.combined,1,81";
    let result = import_csv(data);

    let assertion = OffsetRecord {
        topic: "streamiz.weather.combined".to_string(),
        partition: 0,
        offset: 54,
        consumer_group: "consumer".to_string(),
    };

    assert_eq!(assertion, result.unwrap()[0]);
}

#[test]
fn test_import_from_csv_invalid_csv_should_fail() {
    let data = "consumer,streamiz.weather.combined,0
                        consumer,streamiz.weather.combined,1,81";
    let result = import_csv(data);

    assert!(result.is_err());
}

#[test]
fn test_import_from_non_existing_file_should_fail() {
    let offset_snapshot = CsvOffsetSnapshotImporter { file_path: "nonexistingfiles.csv".to_string() };
    // The file does not exist, so nothing could be read from it.
    let result = offset_snapshot.import_contents(None);

    assert!(result.is_err());
}

#[test]
fn import_csv_reports_every_bad_row() {
    let data = "g,t,x,1\ng,t,0,1\ng,t,1,y";
    match import_csv(data) {
        Err(ImportError::ParseErrors(errors)) => assert_eq!(errors.len(), 2),
        _ => panic!("Expected ParseErrors"),
    }
}

#[test]
fn import_csv_of_nothing_is_empty() {
    assert_eq!(import_csv("").unwrap(), vec![]);
}

fn find<'a>(snapshot: &'a [OffsetRecord], group: &str, topic: &str, partition: i32) -> Option<&'a OffsetRecord> {
    snapshot
        .iter()
        .find(|r| r.consumer_group == group && r.topic == topic && r.partition == partition)
}

#[test]
fn test_snapshot_from_csv_success() {
    let csv_data = "group1,topic1,0,100\ngroup2,topic2,1,200\n";

    let snapshot = snapshot_from_csv(csv_data.as_bytes()).unwrap();

    assert_eq!(snapshot.len(), 2);
    assert!(find(&snapshot, "group1", "topic1", 0).is_some_and(|r| r.offset == 100));
    assert!(find(&snapshot, "group2", "topic2", 1).is_some_and(|r| r.offset == 200));
}

#[test]
fn test_snapshot_from_csv_deduplicates_latest_wins() {
    let csv_data = "group1,topic1,0,100\ngroup2,topic2,1,200\ngroup1,topic1,0,300\n";

    let snapshot = snapshot_from_csv(csv_data.as_bytes()).unwrap();

    assert_eq!(snapshot.len(), 2);
    assert!(find(&snapshot, "group1", "topic1", 0).is_some_and(|r| r.offset == 300));
}

#[test]
fn test_snapshot_from_csv_sorts_records() {
    let csv_data = "group2,topic2,1,200\ngroup1,topic1,1,150\ngroup1,topic1,0,100\n";

    let snapshot = snapshot_from_csv(csv_data.as_bytes()).unwrap();

    let records: Vec<String> = snapshot
        .iter()
        .map(|r| format!("{},{},{},{}", r.consumer_group, r.topic, r.partition, r.offset))
        .collect();
    assert_eq!(records, vec!["group1,topic1,0,100", "group1,topic1,1,150", "group2,topic2,1,200",]);
}

#[test]
fn test_snapshot_from_csv_with_errors() {
    let csv_data = "group1,topic1,0,100\ngroup2,topic2,0\n";

    let result = snapshot_from_csv(csv_data.as_bytes());

    assert!(matches!(result, Err(CsvSnapshotError::MalformedRecord(2, _)),));
}

#[test]
fn malformed_record_message() {
    let e = CsvSnapshotError::MalformedRecord(3, "bad".to_string());
    assert_eq!(e.message(), "Malformed record at line 3: bad");
}

#[test]
fn bytes_that_are_not_utf8_make_a_malformed_record() {
    let mut data = b"group1,topic1,0,100\ngroup2,".to_vec();
    data.extend_from_slice(&[0xff, 0xfe]);
    data.extend_from_slice(b",0,7\n");
    assert!(matches!(snapshot_from_csv(&data), Err(CsvSnapshotError::MalformedRecord(2, _))));

    let importer = CsvOffsetSnapshotImporter { file_path: "offsets.csv".to_string() };
    match importer.import_contents(Some(data)) {
        Err(ImportError::ParseErrors(errors)) => assert_eq!(errors.len(), 1),
        _ => panic!("Expected ParseErrors"),
    }
}

#[test]
fn records_of_lines_keep_the_lines_that_read() {
    let lines = vec!["g,t,0,5".to_string(), "g,t,x,6".to_string(), "h,u,1,7".to_string()];
    let records = records_from_lines(lines.clone());
    assert_eq!(records, vec![record_of("g", "t", 0, 5), record_of("h", "u", 1, 7)]);
    assert_eq!(checked_records_from_lines(lines), Some(records));
    assert_eq!(checked_records_from_lines(vec!["g,t,0,5".to_string(), String::new()]), None);
}

#[test]
fn snapshot_of_rows_keeps_the_last_offset_and_stops_at_a_bad_row() {
    let rows = vec![
        Ok(("g".to_string(), "t".to_string(), 1, 4)),
        Ok(("g".to_string(), "t".to_string(), 0, 9)),
        Ok(("g".to_string(), "t".to_string(), 1, 6)),
    ];
    assert_eq!(snapshot_from_rows(rows).unwrap(), vec![record_of("g", "t", 0, 9), record_of("g", "t", 1, 6)]);
    let bad = vec![Ok(("g".to_string(), "t".to_string(), 1, 4)), Err((2, "bad".to_string())), Err((3, "worse".to_string()))];
    match snapshot_from_rows(bad) {
        Err(CsvSnapshotError::MalformedRecord(line, m)) => {
            assert_eq!(line, 2);
            assert_eq!(m, "bad");
        }
        _ => panic!("Expected MalformedRecord"),
    }
}

fn record_of(group: &str, topic: &str, partition: i32, offset: i64) -> OffsetRecord {
    OffsetRecord { consumer_group: group.to_string(), topic: topic.to_string(), partition, offset }
}

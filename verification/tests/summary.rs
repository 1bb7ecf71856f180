use bridge_core::record::OffsetRecord;
use bridge_core::summary::{summarize, SnapshotSummary, MAX_PREVIEW_ROWS};

fn record(consumer_group: &str, topic: &str, partition: i32, offset: i64) -> OffsetRecord {
    OffsetRecord {
        consumer_group: consumer_group.to_string(),
        topic: topic.to_string(),
        partition,
        offset,
    }
}

/// The summary as text: one line per row, then the other lines.
fn render(s: &SnapshotSummary) -> String {
    let mut out = String::new();
    for (g, t, p, o) in &s.rows {
        out.push_str(&format!("{g} {t} {p} {o}\n"));
    }
    if let Some(line) = s.more_rows_line() {
        out.push_str(&line);
        out.push('\n');
    }
    out.push_str(&s.totals_line());
    out.push('\n');
    out
}

fn summary(snapshot: &Vec<OffsetRecord>, max_rows: usize) -> String {
    render(&summarize(snapshot, max_rows))
}

#[test]
fn test_summary_shows_all_rows_when_below_limit() {
    let snapshot = vec![
        record("group1", "topic1", 0, 100),
        record("group1", "topic1", 1, 200),
        record("group2", "topic2", 0, 300),
    ];

    let output = summary(&snapshot, 5);

    assert!(output.contains("100"));
    assert!(output.contains("200"));
    assert!(output.contains("300"));
    assert!(!output.contains("more rows"));
}

#[test]
fn test_summary_truncates_rows_above_limit() {
    let snapshot = vec![
        record("group1", "topic1", 0, 100),
        record("group2", "topic1", 0, 200),
        record("group3", "topic1", 0, 300),
        record("group4", "topic1", 0, 400),
        record("group5", "topic1", 0, 500),
    ];

    let output = summary(&snapshot, 2);

    assert!(output.contains("group1"));
    assert!(output.contains("group2"));
    assert!(!output.contains("group3"));
    assert!(output.contains("... and 3 more rows"));
}

#[test]
fn test_summary_totals() {
    let snapshot = vec![
        record("group1", "topic1", 0, 100),
        record("group1", "topic2", 0, 200),
        record("group2", "topic2", 0, 300),
        record("group2", "topic3", 0, 400),
    ];

    let output = summary(&snapshot, 20);

    assert!(output.contains("Total: 4 records, 2 consumer groups, 3 topics"));
}

#[test]
fn test_summary_preserves_snapshot_order() {
    let snapshot = vec![record("zebra", "topic1", 0, 100), record("alpha", "topic1", 0, 200)];

    let output = summary(&snapshot, 20);

    let zebra = output.find("zebra").unwrap();
    let alpha = output.find("alpha").unwrap();
    assert!(zebra < alpha);
}

#[test]
fn summary_rows_are_text_of_the_records() {
    let snapshot = vec![record("g", "t", -1, -42)];
    let s = summarize(&snapshot, MAX_PREVIEW_ROWS);
    assert_eq!(s.rows, vec![("g".to_string(), "t".to_string(), "-1".to_string(), "-42".to_string())]);
    assert_eq!(s.more_rows, 0);
    assert_eq!((s.records, s.consumer_groups, s.topics), (1, 1, 1));
    assert_eq!(s.more_rows_line(), None);
}

#[test]
fn summary_of_an_empty_snapshot() {
    let s = summarize(&vec![], 0);
    assert!(s.rows.is_empty());
    assert_eq!(s.totals_line(), "Total: 0 records, 0 consumer groups, 0 topics");
}

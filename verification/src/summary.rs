//! The summary of a snapshot shown before offsets are applied: its first
//! rows, how many more there are, and its totals.

use vstd::prelude::*;
use vstd::string::StringExecFns;

use crate::record::{snapshot_view, OffsetRecordView, OffsetSnapshot};
use crate::text::{contains_string, decimal, format_i64, format_u64, string_views};

verus! {

/// How many rows of a snapshot are shown by default.
pub const MAX_PREVIEW_ROWS: usize = 20;

/// The number of distinct values in `s`.
pub open spec fn distinct_count(s: Seq<Seq<char>>) -> nat
    decreases s.len(),
{
    if s.len() == 0 {
        0
    } else if s.drop_last().contains(s.last()) {
        distinct_count(s.drop_last())
    } else {
        distinct_count(s.drop_last()) + 1
    }
}

pub open spec fn groups_of(s: Seq<OffsetRecordView>) -> Seq<Seq<char>> {
    s.map_values(|r: OffsetRecordView| r.consumer_group)
}

pub open spec fn topics_of(s: Seq<OffsetRecordView>) -> Seq<Seq<char>> {
    s.map_values(|r: OffsetRecordView| r.topic)
}

/// A shown row: consumer group, topic, partition and target offset, as text.
pub type SummaryRow = (String, String, String, String);

pub open spec fn row_of(r: OffsetRecordView) -> (Seq<char>, Seq<char>, Seq<char>, Seq<char>) {
    (r.consumer_group, r.topic, decimal(r.partition as int), decimal(r.offset as int))
}

pub open spec fn rows_view(rows: Seq<SummaryRow>) -> Seq<(Seq<char>, Seq<char>, Seq<char>, Seq<char>)> {
    rows.map_values(|r: SummaryRow| (r.0@, r.1@, r.2@, r.3@))
}

/// The summary of a snapshot.
pub struct SnapshotSummary {
    /// The first rows, in the order of the snapshot.
    pub rows: Vec<SummaryRow>,
    /// How many records are not shown.
    pub more_rows: usize,
    /// The number of records.
    pub records: usize,
    /// The number of distinct consumer groups.
    pub consumer_groups: usize,
    /// The number of distinct topics.
    pub topics: usize,
}

fn count_distinct(values: &Vec<String>) -> (r: usize)
    ensures
        r == distinct_count(string_views(values@)),
{
    let ghost s = string_views(values@);
    let mut seen: Vec<String> = Vec::new();
    let mut i: usize = 0;
    while i < values.len()
        invariant
            i <= values@.len(),
            s == string_views(values@),
            seen@.len() == distinct_count(s.take(i as int)),
            seen@.len() <= i,
            forall|t: Seq<char>| string_views(seen@).contains(t) <==> s.take(i as int).contains(t),
        decreases values@.len() - i,
    {
        let ghost before = string_views(seen@);
        proof {
            assert(s.take(i + 1).drop_last() =~= s.take(i as int));
            assert(s.take(i + 1).last() == s[i as int]);
        }
        if !contains_string(&seen, values[i].as_str()) {
            seen.push(values[i].clone());
            proof {
                assert(string_views(seen@) =~= before.push(s[i as int]));
            }
        }
        proof {
            assert forall|t: Seq<char>| string_views(seen@).contains(t) <==> s.take(i + 1).contains(t) by {
                if s.take(i + 1).contains(t) {
                    let j = choose|j: int| 0 <= j < i + 1 && #[trigger] s.take(i + 1)[j] == t;
                    if j < i {
                        assert(s.take(i as int)[j] == t);
                        assert(before.contains(t));
                        let k = choose|k: int| 0 <= k < before.len() && #[trigger] before[k] == t;
                        assert(string_views(seen@)[k] == t);
                    } else if !before.contains(s[i as int]) {
                        assert(string_views(seen@)[before.len() as int] == t);
                    }
                }
                if string_views(seen@).contains(t) && !before.contains(t) {
                    let k = choose|k: int| 0 <= k < string_views(seen@).len() && #[trigger] string_views(seen@)[k] == t;
                    assert(k == before.len());
                    assert(s.take(i + 1)[i as int] == t);
                }
                if before.contains(t) {
                    let j = choose|j: int| 0 <= j < i && #[trigger] s.take(i as int)[j] == t;
                    assert(s.take(i + 1)[j] == t);
                }
            }
        }
        i = i + 1;
    }
    proof {
        assert(s.take(i as int) =~= s);
    }
    seen.len()
}

/// The summary of `snapshot` showing at most `max_rows` rows.
pub fn summarize(snapshot: &OffsetSnapshot, max_rows: usize) -> (r: SnapshotSummary)
    ensures
        ({
            let s = snapshot_view(snapshot@);
            let shown = if s.len() <= max_rows { s.len() as int } else { max_rows as int };
            &&& rows_view(r.rows@) == s.take(shown).map_values(|x: OffsetRecordView| row_of(x))
            &&& r.more_rows == s.len() - shown
            &&& r.records == s.len()
            &&& r.consumer_groups == distinct_count(groups_of(s))
            &&& r.topics == distinct_count(topics_of(s))
        }),
{
    let ghost s = snapshot_view(snapshot@);
    let n = snapshot.len();
    let shown = if n <= max_rows { n } else { max_rows };
    let mut rows: Vec<SummaryRow> = Vec::new();
    let mut groups: Vec<String> = Vec::new();
    let mut topics: Vec<String> = Vec::new();
    let mut i: usize = 0;
    while i < n
        invariant
            n == snapshot@.len(),
            shown <= n,
            i <= n,
            s == snapshot_view(snapshot@),
            rows_view(rows@) == s.take(if i <= shown { i as int } else { shown as int }).map_values(
                |x: OffsetRecordView| row_of(x),
            ),
            string_views(groups@) == groups_of(s.take(i as int)),
            string_views(topics@) == topics_of(s.take(i as int)),
        decreases n - i,
    {
        let record = &snapshot[i];
        if i < shown {
            let ghost before = rows_view(rows@);
            let p = format_i64(record.partition as i64);
            let o = format_i64(record.offset);
            rows.push((record.consumer_group.clone(), record.topic.clone(), p, o));
            proof {
                assert(rows_view(rows@) =~= before.push(row_of(s[i as int])));
                assert(s.take(i + 1).map_values(|x: OffsetRecordView| row_of(x)) =~= s.take(i as int).map_values(
                    |x: OffsetRecordView| row_of(x),
                ).push(row_of(s[i as int])));
            }
        }
        let ghost gb = string_views(groups@);
        let ghost tb = string_views(topics@);
        groups.push(record.consumer_group.clone());
        topics.push(record.topic.clone());
        proof {
            assert(string_views(groups@) =~= gb.push(s[i as int].consumer_group));
            assert(string_views(topics@) =~= tb.push(s[i as int].topic));
            assert(groups_of(s.take(i + 1)) =~= groups_of(s.take(i as int)).push(s[i as int].consumer_group));
            assert(topics_of(s.take(i + 1)) =~= topics_of(s.take(i as int)).push(s[i as int].topic));
        }
        i = i + 1;
    }
    proof {
        assert(s.take(n as int) =~= s);
    }
    let consumer_groups = count_distinct(&groups);
    let topic_count = count_distinct(&topics);
    SnapshotSummary { rows, more_rows: n - shown, records: n, consumer_groups, topics: topic_count }
}

fn decimal_usize(v: usize) -> (r: String)
    ensures
        r@ == decimal(v as int),
{
    format_u64(v as u64)
}

impl SnapshotSummary {
    /// The line that tells how many rows are not shown, if any are not.
    pub fn more_rows_line(&self) -> (r: Option<String>)
        ensures
            self.more_rows == 0 ==> r is None,
            self.more_rows > 0 ==> (r matches Some(m) && m@ == "... and "@ + decimal(self.more_rows as int)
                + " more rows"@),
    {
        if self.more_rows == 0 {
            None
        } else {
            let mut m = String::from_str("... and ");
            m.append(decimal_usize(self.more_rows).as_str());
            m.append(" more rows");
            Some(m)
        }
    }

    /// The line with the totals.
    pub fn totals_line(&self) -> (r: String)
        ensures
            r@ == "Total: "@ + decimal(self.records as int) + " records, "@ + decimal(self.consumer_groups as int)
                + " consumer groups, "@ + decimal(self.topics as int) + " topics"@,
    {
        let mut m = String::from_str("Total: ");
        m.append(decimal_usize(self.records).as_str());
        m.append(" records, ");
        m.append(decimal_usize(self.consumer_groups).as_str());
        m.append(" consumer groups, ");
        m.append(decimal_usize(self.topics).as_str());
        m.append(" topics");
        m
    }
}

} // verus!

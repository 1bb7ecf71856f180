//! Consumer group offset records and snapshots of them.

use vstd::prelude::*;
use vstd::string::StringExecFns;

use crate::errors::ApplicationRecord;
use crate::keyed::{
    first_key_index, lemma_first_key_index, lemma_first_key_index_at, lemma_first_key_index_none,
    set_value, value_of,
};
use crate::text::{
    compare_str, contains_string, decimal, format_i64, lemma_str_order, str_lt, string_views, Cmp,
};

verus! {

/// Number of a partition within a topic.
pub type PartitionNumber = i32;

/// Name of a topic.
pub type Topic = String;

/// Name of a topic.
pub type TopicName = String;

/// Name of a consumer group.
pub type ConsumerGroup = String;

/// Position of a record within a partition.
pub type Offset = i64;

/// The committed offset of a consumer group on one partition of a topic.
#[derive(Debug, PartialEq, Eq, Clone)]
pub struct OffsetRecord {
    pub consumer_group: String,
    pub topic: String,
    pub partition: i32,
    pub offset: i64,
}

/// Mathematical value of an [`OffsetRecord`].
pub struct OffsetRecordView {
    pub consumer_group: Seq<char>,
    pub topic: Seq<char>,
    pub partition: i32,
    pub offset: i64,
}

impl View for OffsetRecord {
    type V = OffsetRecordView;

    open spec fn view(&self) -> OffsetRecordView {
        OffsetRecordView {
            consumer_group: self.consumer_group@,
            topic: self.topic@,
            partition: self.partition,
            offset: self.offset,
        }
    }
}

/// A list of offset records.
pub type OffsetSnapshot = Vec<OffsetRecord>;

/// The views of the records of a snapshot.
pub open spec fn snapshot_view(s: Seq<OffsetRecord>) -> Seq<OffsetRecordView> {
    s.map_values(|r: OffsetRecord| r@)
}

impl OffsetRecord {
    /// Creates a record for `consumer_group` on partition `partition` of `topic`.
    pub fn new(topic: &str, consumer_group: &str, partition: i32, offset: i64) -> (r: OffsetRecord)
        ensures
            r@ == (OffsetRecordView {
                consumer_group: consumer_group@,
                topic: topic@,
                partition,
                offset,
            }),
    {
        OffsetRecord {
            topic: topic.to_owned(),
            partition,
            offset,
            consumer_group: consumer_group.to_owned(),
        }
    }

    /// A copy of this record.
    pub fn duplicate(&self) -> (r: OffsetRecord)
        ensures
            r@ == self@,
    {
        OffsetRecord {
            consumer_group: self.consumer_group.clone(),
            topic: self.topic.clone(),
            partition: self.partition,
            offset: self.offset,
        }
    }
}

} // verus!

verus! {

/// The [consumer group, topic, partition] a record is about.
pub type OffsetKey = (Seq<char>, Seq<char>, i32);

pub open spec fn record_key(r: OffsetRecordView) -> OffsetKey {
    (r.consumer_group, r.topic, r.partition)
}

/// Order of keys as Rust orders `(String, String, i32)`: by consumer group,
/// then topic, then partition.
pub open spec fn key_lt(a: OffsetKey, b: OffsetKey) -> bool {
    ||| str_lt(a.0, b.0)
    ||| (a.0 == b.0 && str_lt(a.1, b.1))
    ||| (a.0 == b.0 && a.1 == b.1 && a.2 < b.2)
}

pub proof fn lemma_key_order(a: OffsetKey, b: OffsetKey, c: OffsetKey)
    ensures
        !key_lt(a, a),
        !(key_lt(a, b) && key_lt(b, a)),
        key_lt(a, b) && key_lt(b, c) ==> key_lt(a, c),
        a == b || key_lt(a, b) || key_lt(b, a),
{
    lemma_str_order(a.0, b.0, c.0);
    lemma_str_order(a.1, b.1, c.1);
    lemma_str_order(b.0, a.0, c.0);
    lemma_str_order(b.1, a.1, c.1);
    lemma_str_order(a.0, c.0, b.0);
    lemma_str_order(a.1, c.1, b.1);
}

/// Records in strictly increasing key order (so each key occurs once).
pub open spec fn sorted_records(s: Seq<OffsetRecordView>) -> bool {
    forall|i: int, j: int|
        0 <= i < j < s.len() ==> key_lt(#[trigger] record_key(s[i]), #[trigger] record_key(s[j]))
}

/// Records whose keys are pairwise distinct.
pub open spec fn unique_keys(s: Seq<OffsetRecordView>) -> bool {
    forall|i: int, j: int|
        0 <= i < s.len() && 0 <= j < s.len() && i != j ==> #[trigger] record_key(s[i])
            != #[trigger] record_key(s[j])
}

/// The offset recorded per key; a later record overrides an earlier one.
pub open spec fn records_map(s: Seq<OffsetRecordView>) -> Map<OffsetKey, i64>
    decreases s.len(),
{
    if s.len() == 0 {
        Map::empty()
    } else {
        records_map(s.drop_last()).insert(record_key(s.last()), s.last().offset)
    }
}

pub proof fn lemma_sorted_unique(s: Seq<OffsetRecordView>)
    requires
        sorted_records(s),
    ensures
        unique_keys(s),
{
    assert forall|i: int, j: int|
        0 <= i < s.len() && 0 <= j < s.len() && i != j implies #[trigger] record_key(s[i])
        != #[trigger] record_key(s[j]) by {
        lemma_key_order(record_key(s[i]), record_key(s[j]), record_key(s[j]));
        if i < j {
            assert(key_lt(record_key(s[i]), record_key(s[j])));
        } else {
            assert(key_lt(record_key(s[j]), record_key(s[i])));
        }
    }
}

/// The map of records with distinct keys holds exactly their keys and offsets.
pub proof fn lemma_records_map(s: Seq<OffsetRecordView>)
    requires
        unique_keys(s),
    ensures
        records_map(s).dom().finite(),
        records_map(s).len() == s.len(),
        forall|k: OffsetKey|
            #[trigger] records_map(s).contains_key(k) <==> exists|i: int|
                0 <= i < s.len() && record_key(s[i]) == k,
        forall|i: int|
            0 <= i < s.len() ==> #[trigger] records_map(s)[record_key(s[i])] == s[i].offset,
    decreases s.len(),
{
    if s.len() > 0 {
        let t = s.drop_last();
        assert(unique_keys(t)) by {
            assert forall|i: int, j: int|
                0 <= i < t.len() && 0 <= j < t.len() && i != j implies #[trigger] record_key(t[i])
                != #[trigger] record_key(t[j]) by {
                assert(t[i] == s[i]);
                assert(t[j] == s[j]);
            }
        }
        lemma_records_map(t);
        let last = record_key(s.last());
        assert(!records_map(t).contains_key(last)) by {
            if records_map(t).contains_key(last) {
                let i = choose|i: int| 0 <= i < t.len() && record_key(t[i]) == last;
                assert(s[i] == t[i]);
                assert(record_key(s[i]) == record_key(s[s.len() - 1]));
            }
        }
        assert forall|k: OffsetKey|
            #[trigger] records_map(s).contains_key(k) <==> exists|i: int|
                0 <= i < s.len() && record_key(s[i]) == k by {
            if records_map(s).contains_key(k) {
                if k == last {
                    assert(record_key(s[s.len() - 1]) == k);
                } else {
                    let i = choose|i: int| 0 <= i < t.len() && record_key(t[i]) == k;
                    assert(s[i] == t[i]);
                }
            }
            if exists|i: int| 0 <= i < s.len() && record_key(s[i]) == k {
                let i = choose|i: int| 0 <= i < s.len() && record_key(s[i]) == k;
                if i < s.len() - 1 {
                    assert(t[i] == s[i]);
                }
            }
        }
        assert forall|i: int|
            0 <= i < s.len() implies #[trigger] records_map(s)[record_key(s[i])]
            == s[i].offset by {
            if i < s.len() - 1 {
                assert(t[i] == s[i]);
                assert(record_key(s[i]) != last);
            }
        }
    }
}

/// The topics of a snapshot.
pub open spec fn snapshot_has_topic(s: Seq<OffsetRecordView>, topic: Seq<char>) -> bool {
    exists|i: int| 0 <= i < s.len() && #[trigger] s[i].topic == topic
}

/// The distinct topics of the snapshot, in the order of their first record.
pub fn get_unique_topics_from_offset_snapshot(offset_snapshot: &OffsetSnapshot) -> (r: Vec<String>)
    ensures
        string_views(r@).no_duplicates(),
        forall|t: Seq<char>|
            string_views(r@).contains(t) <==> snapshot_has_topic(snapshot_view(offset_snapshot@), t),
{
    let ghost s = snapshot_view(offset_snapshot@);
    let mut r: Vec<String> = Vec::new();
    let mut i: usize = 0;
    while i < offset_snapshot.len()
        invariant
            i <= offset_snapshot@.len(),
            s == snapshot_view(offset_snapshot@),
            string_views(r@).no_duplicates(),
            forall|t: Seq<char>|
                string_views(r@).contains(t) <==> snapshot_has_topic(s.take(i as int), t),
        decreases offset_snapshot@.len() - i,
    {
        let topic = &offset_snapshot[i].topic;
        let ghost before = string_views(r@);
        let present = contains_string(&r, topic.as_str());
        if !present {
            r.push(topic.clone());
            proof {
                assert(string_views(r@) =~= before.push(topic@));
            }
        }
        proof {
            assert forall|t: Seq<char>|
                string_views(r@).contains(t) <==> snapshot_has_topic(s.take(i + 1), t) by {
                if snapshot_has_topic(s.take(i + 1), t) {
                    let j = choose|j: int| 0 <= j < i + 1 && #[trigger] s.take(i + 1)[j].topic == t;
                    if j < i {
                        assert(s.take(i as int)[j] == s.take(i + 1)[j]);
                        assert(s.take(i as int)[j].topic == t);
                        assert(snapshot_has_topic(s.take(i as int), t));
                        assert(before.contains(t));
                        if !present {
                            let k = choose|k: int| 0 <= k < before.len() && before[k] == t;
                            assert(string_views(r@)[k] == t);
                        }
                    } else {
                        assert(s[i as int].topic == topic@);
                        if present {
                        } else {
                            assert(string_views(r@)[before.len() as int] == topic@);
                        }
                    }
                }
                if string_views(r@).contains(t) {
                    if before.contains(t) {
                        assert(snapshot_has_topic(s.take(i as int), t));
                        let j = choose|j: int| 0 <= j < s.take(i as int).len() && #[trigger] s.take(i as int)[j].topic == t;
                        assert(s.take(i + 1)[j] == s.take(i as int)[j]);
                        assert(s.take(i + 1)[j].topic == t);
                        assert(snapshot_has_topic(s.take(i + 1), t));
                    } else {
                        assert(!present);
                        let j = choose|j: int| 0 <= j < string_views(r@).len() && string_views(r@)[j] == t;
                        assert(j == before.len());
                        assert(t == topic@);
                        assert(s.take(i + 1)[i as int].topic == t);
                        assert(snapshot_has_topic(s.take(i + 1), t));
                    }
                }
            }
        }
        i = i + 1;
    }
    proof {
        assert(s.take(i as int) =~= s);
    }
    r
}

/// Whether a record is of one of `topics`.
pub open spec fn in_topics(topics: Seq<Seq<char>>) -> spec_fn(OffsetRecordView) -> bool {
    |r: OffsetRecordView| topics.contains(r.topic)
}

/// The records of topics in `topics`, in order; all records when no topic
/// is given.
pub open spec fn filter_by_topics_spec(s: Seq<OffsetRecordView>, topics: Seq<Seq<char>>) -> Seq<
    OffsetRecordView,
> {
    if topics.len() == 0 {
        s
    } else {
        s.filter(in_topics(topics))
    }
}

/// Filters the snapshot to include only records with topics in the provided list.
/// If the list is empty, returns all records.
pub fn filter_by_topics(snapshot: &OffsetSnapshot, topics: &Vec<String>) -> (r: OffsetSnapshot)
    ensures
        snapshot_view(r@) == filter_by_topics_spec(snapshot_view(snapshot@), string_views(topics@)),
{
    let ghost s = snapshot_view(snapshot@);
    let ghost ts = string_views(topics@);
    let mut r: OffsetSnapshot = Vec::new();
    let mut i: usize = 0;
    proof {
        reveal_with_fuel(Seq::<_>::filter, 1);
        assert(s.take(0) =~= Seq::<OffsetRecordView>::empty());
        assert(snapshot_view(r@) =~= Seq::<OffsetRecordView>::empty());
    }
    while i < snapshot.len()
        invariant
            i <= snapshot@.len(),
            s == snapshot_view(snapshot@),
            ts == string_views(topics@),
            snapshot_view(r@) == if ts.len() == 0 {
                s.take(i as int)
            } else {
                s.take(i as int).filter(|r: OffsetRecordView| ts.contains(r.topic))
            },
        decreases snapshot@.len() - i,
    {
        let record = &snapshot[i];
        let ghost before = snapshot_view(r@);
        let keep = topics.len() == 0 || contains_string(topics, record.topic.as_str());
        if keep {
            r.push(record.duplicate());
            proof {
                assert(snapshot_view(r@) =~= before.push(record@));
            }
        }
        proof {
            reveal_with_fuel(Seq::<_>::filter, 1);
            assert(s.take(i + 1).drop_last() =~= s.take(i as int));
            assert(s.take(i + 1).last() == record@);
            assert(s.take(i + 1) =~= s.take(i as int).push(record@));
        }
        i = i + 1;
    }
    proof {
        assert(s.take(i as int) =~= s);
    }
    r
}

/// Offsets to commit per consumer group: each group with its records
/// (topic, partition, offset), groups in the order of their first record.
pub open spec fn group_by_consumer_spec(s: Seq<OffsetRecordView>) -> Seq<
    (Seq<char>, Seq<(Seq<char>, i32, i64)>),
>
    decreases s.len(),
{
    if s.len() == 0 {
        Seq::empty()
    } else {
        let g = group_by_consumer_spec(s.drop_last());
        let r = s.last();
        let entry = (r.topic, r.partition, r.offset);
        match value_of(g, r.consumer_group) {
            Some(v) => set_value(g, r.consumer_group, v.push(entry)),
            None => set_value(g, r.consumer_group, seq![entry]),
        }
    }
}

pub open spec fn grouped_view(s: Seq<(String, Vec<ApplicationRecord>)>) -> Seq<
    (Seq<char>, Seq<(Seq<char>, i32, i64)>),
> {
    s.map_values(
        |e: (String, Vec<ApplicationRecord>)|
            (e.0@, e.1@.map_values(|a: ApplicationRecord| a@)),
    )
}

fn find_consumer_group(r: &Vec<(String, Vec<ApplicationRecord>)>, group: &str) -> (found: Option<usize>)
    ensures
        first_key_index(grouped_view(r@), group@) == match found {
            Some(j) => Some(j as int),
            None => None::<int>,
        },
        found matches Some(j) ==> j < r@.len(),
{
    let ghost g = grouped_view(r@);
    let mut j: usize = 0;
    while j < r.len()
        invariant
            j <= r@.len(),
            g == grouped_view(r@),
            forall|k: int| 0 <= k < j ==> #[trigger] g[k].0 != group@,
        decreases r@.len() - j,
    {
        if compare_str(r[j].0.as_str(), group) == Cmp::Equal {
            proof {
                lemma_first_key_index_at(g, group@, j as int);
            }
            return Some(j);
        }
        j = j + 1;
    }
    proof {
        lemma_first_key_index_none(g, group@);
    }
    None
}

/// Groups the records of a snapshot by consumer group.
pub fn group_by_consumer(snapshot: &OffsetSnapshot) -> (r: Vec<(String, Vec<ApplicationRecord>)>)
    ensures
        grouped_view(r@) == group_by_consumer_spec(snapshot_view(snapshot@)),
{
    let ghost s = snapshot_view(snapshot@);
    let mut r: Vec<(String, Vec<ApplicationRecord>)> = Vec::new();
    let mut i: usize = 0;
    proof {
        assert(s.take(0) =~= Seq::<OffsetRecordView>::empty());
        assert(grouped_view(r@) =~= Seq::<(Seq<char>, Seq<(Seq<char>, i32, i64)>)>::empty());
    }
    while i < snapshot.len()
        invariant
            i <= snapshot@.len(),
            s == snapshot_view(snapshot@),
            grouped_view(r@) == group_by_consumer_spec(s.take(i as int)),
        decreases snapshot@.len() - i,
    {
        let record = &snapshot[i];
        let ghost g = grouped_view(r@);
        let ghost r0 = r@;
        let entry: ApplicationRecord = (record.topic.clone(), record.partition, record.offset);
        proof {
            assert(s.take(i + 1).drop_last() =~= s.take(i as int));
            assert(s.take(i + 1).last() == record@);
        }
        let found = find_consumer_group(&r, record.consumer_group.as_str());
        if let Some(j) = found {
            proof {
                lemma_first_key_index(g, record.consumer_group@);
            }
            let (name, mut entries) = r.remove(j);
            let ghost e0 = entries@;
            entries.push(entry);
            let ghost x = (name, entries);
            r.insert(j, (name, entries));
            proof {
                assert(r@ =~= r0.update(j as int, x));
                assert(entries@.map_values(|a: ApplicationRecord| a@) =~= e0.map_values(|a: ApplicationRecord| a@).push(entry@));
                assert(grouped_view(r@) =~= g.update(j as int, (record.consumer_group@, g[j as int].1.push(entry@))));
            }
        } else {
            let mut entries: Vec<ApplicationRecord> = Vec::new();
            entries.push(entry);
            r.push((record.consumer_group.clone(), entries));
            proof {
                assert(entries@.map_values(|a: ApplicationRecord| a@) =~= seq![entry@]);
                assert(grouped_view(r@) =~= g.push((record.consumer_group@, seq![entry@])));
            }
        }
        i = i + 1;
    }
    proof {
        assert(s.take(i as int) =~= s);
    }
    r
}

/// Why offset records could not be imported.
#[derive(Debug)]
pub enum ImportError {
    ResourceNotFound(String),
    ParseErrors(Vec<String>),
}

/// The records read, or every parse error (as its message) when there is
/// at least one.
pub fn import_records(records: Vec<Result<OffsetRecord, String>>) -> (r: Result<
    Vec<OffsetRecord>,
    ImportError,
>)
    ensures
        match r {
            Ok(v) => (forall|i: int| 0 <= i < records@.len() ==> #[trigger] records@[i] is Ok)
                && v@.len() == records@.len() && forall|i: int|
                0 <= i < v@.len() ==> #[trigger] v@[i]@ == records@[i]->Ok_0@,
            Err(ImportError::ParseErrors(errors)) => errors@.len() > 0 && string_views(errors@)
                == records@.filter(|x: Result<OffsetRecord, String>| x is Err).map_values(
                |x: Result<OffsetRecord, String>| x->Err_0@,
            ),
            Err(_) => false,
        },
{
    let ghost input = records@;
    let mut parse_errors: Vec<String> = Vec::new();
    let mut snapshot: Vec<OffsetRecord> = Vec::new();
    let mut i: usize = 0;
    proof {
        reveal_with_fuel(Seq::<_>::filter, 1);
        assert(input.take(0) =~= Seq::<Result<OffsetRecord, String>>::empty());
        assert(string_views(parse_errors@) =~= Seq::<Seq<char>>::empty());
    }
    while i < records.len()
        invariant
            i <= records@.len(),
            input == records@,
            string_views(parse_errors@) == input.take(i as int).filter(
                |x: Result<OffsetRecord, String>| x is Err,
            ).map_values(|x: Result<OffsetRecord, String>| x->Err_0@),
            parse_errors@.len() == 0 ==> (forall|j: int| 0 <= j < i ==> #[trigger] input[j] is Ok)
                && snapshot@.len() == i && forall|j: int|
                0 <= j < i ==> #[trigger] snapshot@[j]@ == input[j]->Ok_0@,
        decreases records@.len() - i,
    {
        let ghost before = parse_errors@;
        let ghost t = input.take(i as int).filter(|x: Result<OffsetRecord, String>| x is Err);
        match &records[i] {
            Ok(record) => {
                snapshot.push(record.duplicate());
            },
            Err(error) => {
                parse_errors.push(error.clone());
            },
        }
        proof {
            reveal_with_fuel(Seq::<_>::filter, 1);
            assert(input.take(i + 1).drop_last() =~= input.take(i as int));
            assert(input.take(i + 1).last() == input[i as int]);
            if input[i as int] is Err {
                assert(input.take(i + 1).filter(|x: Result<OffsetRecord, String>| x is Err) == t.push(input[i as int]));
                assert(string_views(parse_errors@) =~= string_views(before).push(input[i as int]->Err_0@));
                assert(t.push(input[i as int]).map_values(|x: Result<OffsetRecord, String>| x->Err_0@) =~= t.map_values(|x: Result<OffsetRecord, String>| x->Err_0@).push(input[i as int]->Err_0@));
            } else {
                assert(input.take(i + 1).filter(|x: Result<OffsetRecord, String>| x is Err) == t);
            }
        }
        i = i + 1;
    }
    proof {
        assert(input.take(i as int) =~= input);
    }
    if parse_errors.len() == 0 {
        Ok(snapshot)
    } else {
        Err(ImportError::ParseErrors(parse_errors))
    }
}

/// A record as one line of CSV text: consumer group, topic, partition and
/// offset, separated by commas.
pub open spec fn record_line(r: OffsetRecordView) -> Seq<char> {
    r.consumer_group + ","@ + r.topic + ","@ + decimal(r.partition as int) + ","@ + decimal(r.offset as int)
}

/// The lines of the records of a snapshot, each ended by a newline.
pub open spec fn snapshot_text(s: Seq<OffsetRecordView>) -> Seq<char>
    decreases s.len(),
{
    if s.len() == 0 {
        Seq::empty()
    } else {
        snapshot_text(s.drop_last()) + record_line(s.last()) + "\n"@
    }
}

impl OffsetRecord {
    /// The record as one line of CSV text, as it is shown.
    pub fn to_line(&self) -> (r: String)
        ensures
            r@ == record_line(self@),
    {
        let mut r = self.consumer_group.clone();
        r.append(",");
        r.append(self.topic.as_str());
        r.append(",");
        r.append(format_i64(self.partition as i64).as_str());
        r.append(",");
        r.append(format_i64(self.offset).as_str());
        r
    }
}

/// The snapshot as CSV text: one line per record, in order.
pub fn snapshot_to_csv(snapshot: &OffsetSnapshot) -> (r: String)
    ensures
        r@ == snapshot_text(snapshot_view(snapshot@)),
{
    let ghost s = snapshot_view(snapshot@);
    let mut r = String::new();
    let mut i: usize = 0;
    proof {
        assert(s.take(0) =~= Seq::<OffsetRecordView>::empty());
    }
    while i < snapshot.len()
        invariant
            i <= snapshot@.len(),
            s == snapshot_view(snapshot@),
            r@ == snapshot_text(s.take(i as int)),
        decreases snapshot@.len() - i,
    {
        proof {
            assert(s.take(i + 1).drop_last() =~= s.take(i as int));
            assert(s.take(i + 1).last() == snapshot@[i as int]@);
        }
        let line = snapshot[i].to_line();
        r.append(line.as_str());
        r.append("\n");
        i = i + 1;
    }
    proof {
        assert(s.take(i as int) =~= s);
    }
    r
}

/// Filtering by topics keeps exactly the records of the given topics (all
/// records when no topic is given).
pub proof fn law_filter_by_topics(s: Seq<OffsetRecordView>, topics: Seq<Seq<char>>, r: OffsetRecordView)
    ensures
        filter_by_topics_spec(s, topics).contains(r) <==> (s.contains(r) && (topics.len() == 0 || topics.contains(r.topic))),
{
    if topics.len() > 0 {
        let f = s.filter(in_topics(topics));
        if f.contains(r) {
            let j = choose|j: int| 0 <= j < f.len() && f[j] == r;
            s.lemma_filter_pred(in_topics(topics), j);
            crate::keyed::lemma_filter_member(s, in_topics(topics), j);
        }
        if s.contains(r) && topics.contains(r.topic) {
            let i = choose|i: int| 0 <= i < s.len() && s[i] == r;
            s.lemma_filter_contains(in_topics(topics), i);
        }
    }
}

} // verus!

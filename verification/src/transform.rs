//! Mapping of source offsets to target offsets: the bookkeeping of
//! found mappings, of source offsets still missing, and of the nearest
//! later offsets seen for them.

use vstd::prelude::*;
use vstd::string::StringExecFns;

use crate::errors::{ConsumerGroupRecord, TransformationError, TransformationRecord};
use crate::keyed::{
    distinct_keys, first_key_index, lemma_first_key_index_at, lemma_first_key_index_none,
    lemma_set_value, set_value, value_of,
};
use crate::message::ConsumedMessage;
use crate::record::{snapshot_view, OffsetRecord, OffsetRecordView, OffsetSnapshot};
use crate::text::{compare_str, join, join_strings, string_views, Cmp};

verus! {

/// Mathematical value of a [`TransformationRecord`]:
/// (topic, partition, source offset, target offset).
pub type TransformationView = (Seq<char>, i32, i64, i64);

/// Mathematical value of a [`ConsumerGroupRecord`]:
/// (consumer group, topic, partition, offset).
pub type GroupRecordView = (Seq<char>, Seq<char>, i32, i64);

pub open spec fn group_record_views(s: Seq<ConsumerGroupRecord>) -> Seq<GroupRecordView> {
    s.map_values(|r: ConsumerGroupRecord| r@)
}

pub open spec fn transformation_views(s: Seq<TransformationRecord>) -> Seq<TransformationView> {
    s.map_values(|r: TransformationRecord| r@)
}

/// The mapped offsets of each consumer group, in the order in which the
/// groups were first seen.
#[derive(Debug, Clone)]
pub struct Transformations {
    entries: Vec<(String, Vec<TransformationRecord>)>,
}

impl View for Transformations {
    type V = Seq<(Seq<char>, Seq<TransformationView>)>;

    closed spec fn view(&self) -> Seq<(Seq<char>, Seq<TransformationView>)> {
        self.entries@.map_values(
            |e: (String, Vec<TransformationRecord>)| (e.0@, transformation_views(e.1@)),
        )
    }
}

/// The mappings after adding one for `group`: appended to the group's
/// list, or a new list for a new group.
pub open spec fn add_transformation(
    t: Seq<(Seq<char>, Seq<TransformationView>)>,
    group: Seq<char>,
    record: TransformationView,
) -> Seq<(Seq<char>, Seq<TransformationView>)> {
    match value_of(t, group) {
        Some(records) => set_value(t, group, records.push(record)),
        None => set_value(t, group, seq![record]),
    }
}

fn find_group(entries: &Vec<(String, Vec<TransformationRecord>)>, group: &str) -> (r: Option<usize>)
    ensures
        first_key_index(
            entries@.map_values(|e: (String, Vec<TransformationRecord>)| (e.0@, transformation_views(e.1@))),
            group@,
        ) == match r {
            Some(i) => Some(i as int),
            None => None::<int>,
        },
        r matches Some(i) ==> i < entries@.len(),
{
    let ghost s = entries@.map_values(|e: (String, Vec<TransformationRecord>)| (e.0@, transformation_views(e.1@)));
    let mut i: usize = 0;
    while i < entries.len()
        invariant
            i <= entries@.len(),
            s == entries@.map_values(|e: (String, Vec<TransformationRecord>)| (e.0@, transformation_views(e.1@))),
            forall|j: int| 0 <= j < i ==> #[trigger] s[j].0 != group@,
        decreases entries@.len() - i,
    {
        if compare_str(entries[i].0.as_str(), group) == Cmp::Equal {
            proof {
                lemma_first_key_index_at(s, group@, i as int);
            }
            return Some(i);
        }
        i = i + 1;
    }
    proof {
        lemma_first_key_index_none(s, group@);
    }
    None
}

impl Transformations {
    /// No mappings.
    pub fn new() -> (r: Self)
        ensures
            r@ == Seq::<(Seq<char>, Seq<TransformationView>)>::empty(),
    {
        let r = Transformations { entries: Vec::new() };
        proof {
            assert(r@ =~= Seq::<(Seq<char>, Seq<TransformationView>)>::empty());
        }
        r
    }

    /// Sets the mappings of a consumer group, replacing earlier ones.
    pub fn insert(&mut self, group: String, records: Vec<TransformationRecord>)
        ensures
            final(self)@ == set_value(old(self)@, group@, transformation_views(records@)),
    {
        let ghost s = self@;
        let ghost g = group@;
        let ghost rv = transformation_views(records@);
        match find_group(&self.entries, group.as_str()) {
            Some(i) => {
                self.entries.set(i, (group, records));
                proof {
                    assert(self@ =~= s.update(i as int, (g, rv)));
                }
            },
            None => {
                self.entries.push((group, records));
                proof {
                    assert(self@ =~= s.push((g, rv)));
                }
            },
        }
    }

    /// The number of consumer groups.
    pub fn len(&self) -> (n: usize)
        ensures
            n == self@.len(),
    {
        self.entries.len()
    }

    /// Whether a consumer group has mappings.
    pub fn contains_key(&self, group: &str) -> (r: bool)
        ensures
            r == (value_of(self@, group@) is Some),
    {
        find_group(&self.entries, group).is_some()
    }

    /// The mappings of a consumer group.
    pub fn get(&self, group: &str) -> (r: Option<&Vec<TransformationRecord>>)
        ensures
            match value_of(self@, group@) {
                Some(v) => r matches Some(x) && transformation_views(x@) == v,
                None => r is None,
            },
    {
        match find_group(&self.entries, group) {
            Some(i) => Some(&self.entries[i].1),
            None => None,
        }
    }

    /// The consumer groups with their mappings, in order.
    pub fn into_entries(self) -> (r: Vec<(String, Vec<TransformationRecord>)>)
        ensures
            r@.map_values(|e: (String, Vec<TransformationRecord>)| (e.0@, transformation_views(e.1@))) == self@,
    {
        self.entries
    }

    fn add(&mut self, group: String, record: TransformationRecord)
        ensures
            final(self)@ == add_transformation(old(self)@, group@, record@),
    {
        let ghost s = self@;
        match find_group(&self.entries, group.as_str()) {
            Some(i) => {
                proof {
                    crate::keyed::lemma_first_key_index(s, group@);
                }
                let ghost e0 = self.entries@;
                let (g, mut records) = self.entries.remove(i);
                let ghost before = records@;
                records.push(record);
                proof {
                    assert(transformation_views(records@) =~= transformation_views(before).push(record@));
                    assert(s[i as int] == (g@, transformation_views(before)));
                }
                let ghost x = (g, records);
                self.entries.insert(i, (g, records));
                proof {
                    assert(self.entries@ =~= e0.update(i as int, x));
                    assert(self@ =~= s.update(i as int, (group@, s[i as int].1.push(record@))));
                }
            },
            None => {
                let mut records = Vec::new();
                records.push(record);
                self.entries.push((group, records));
                proof {
                    assert(transformation_views(records@) =~= seq![record@]);
                    assert(self@ =~= s.push((group@, seq![record@])));
                }
            },
        }
    }
}

/// Adding a mapping keeps consumer groups distinct and appends the
/// record to the group's list, leaving other groups unchanged.
pub proof fn law_add_transformation(
    t: Seq<(Seq<char>, Seq<TransformationView>)>,
    group: Seq<char>,
    record: TransformationView,
)
    ensures
        distinct_keys(t) ==> distinct_keys(add_transformation(t, group, record)),
        value_of(add_transformation(t, group, record), group) == Some(
            match value_of(t, group) {
                Some(records) => records.push(record),
                None => seq![record],
            },
        ),
        forall|g: Seq<char>|
            g != group ==> #[trigger] value_of(add_transformation(t, group, record), g) == value_of(
                t,
                g,
            ),
{
    match value_of(t, group) {
        Some(records) => lemma_set_value(t, group, records.push(record)),
        None => lemma_set_value(t, group, seq![record]),
    }
}

/// Inserts a new offset transformation record into the transformations map.
///
/// This function tracks the mapping between source offsets (from the source Kafka cluster)
/// and target offsets (from the destination Kafka cluster) for a specific consumer group,
/// topic, and partition combination.
pub fn insert_offset_transformations(
    transformations: &mut Transformations,
    source_offset_from_message: &i64,
    current_offset_from_message: &i64,
    topic: String,
    partition: i32,
    consumer_group: String,
) -> (r: Result<(), TransformationError>)
    ensures
        r is Ok,
        final(transformations)@ == add_transformation(
            old(transformations)@,
            consumer_group@,
            (topic@, partition, *source_offset_from_message, *current_offset_from_message),
        ),
{
    transformations.add(
        consumer_group,
        (topic, partition, *source_offset_from_message, *current_offset_from_message),
    );
    Ok(())
}

/// The nearest later source offset seen for each missing source offset.
#[derive(Debug, Clone)]
pub struct NearestOffsets {
    entries: Vec<(ConsumerGroupRecord, i64)>,
}

impl View for NearestOffsets {
    type V = Seq<(GroupRecordView, i64)>;

    closed spec fn view(&self) -> Seq<(GroupRecordView, i64)> {
        self.entries@.map_values(|e: (ConsumerGroupRecord, i64)| (e.0@, e.1))
    }
}

fn same_group_record(a: &ConsumerGroupRecord, b: &ConsumerGroupRecord) -> (r: bool)
    ensures
        r == (a@ == b@),
{
    compare_str(a.0.as_str(), b.0.as_str()) == Cmp::Equal && compare_str(a.1.as_str(), b.1.as_str())
        == Cmp::Equal && a.2 == b.2 && a.3 == b.3
}

fn copy_group_record(a: &ConsumerGroupRecord) -> (r: ConsumerGroupRecord)
    ensures
        r@ == a@,
{
    (a.0.clone(), a.1.clone(), a.2, a.3)
}

impl NearestOffsets {
    /// No nearest offsets.
    pub fn new() -> (r: Self)
        ensures
            r@ == Seq::<(GroupRecordView, i64)>::empty(),
    {
        let r = NearestOffsets { entries: Vec::new() };
        proof {
            assert(r@ =~= Seq::<(GroupRecordView, i64)>::empty());
        }
        r
    }

    fn position(&self, key: &ConsumerGroupRecord) -> (r: Option<usize>)
        ensures
            first_key_index(self@, key@) == match r {
                Some(i) => Some(i as int),
                None => None::<int>,
            },
            r matches Some(i) ==> i < self@.len(),
    {
        let mut i: usize = 0;
        while i < self.entries.len()
            invariant
                i <= self@.len(),
                self@.len() == self.entries@.len(),
                forall|j: int| 0 <= j < i ==> #[trigger] self@[j].0 != key@,
            decreases self.entries@.len() - i,
        {
            if same_group_record(&self.entries[i].0, key) {
                proof {
                    lemma_first_key_index_at(self@, key@, i as int);
                }
                return Some(i);
            }
            i = i + 1;
        }
        proof {
            lemma_first_key_index_none(self@, key@);
        }
        None
    }

    /// Sets the nearest offset of a source offset, replacing an earlier one.
    pub fn insert(&mut self, key: ConsumerGroupRecord, value: i64)
        ensures
            final(self)@ == set_value(old(self)@, key@, value),
    {
        let ghost s = self@;
        let ghost k = key@;
        match self.position(&key) {
            Some(i) => {
                self.entries.set(i, (key, value));
                proof {
                    assert(self@ =~= s.update(i as int, (k, value)));
                }
            },
            None => {
                self.entries.push((key, value));
                proof {
                    assert(self@ =~= s.push((k, value)));
                }
            },
        }
    }

    /// Whether a nearest offset is known for a source offset.
    pub fn contains_key(&self, key: &ConsumerGroupRecord) -> (r: bool)
        ensures
            r == (value_of(self@, key@) is Some),
    {
        self.position(key).is_some()
    }

    /// The nearest offset known for a source offset.
    pub fn get(&self, key: &ConsumerGroupRecord) -> (r: Option<i64>)
        ensures
            r == value_of(self@, key@),
    {
        match self.position(key) {
            Some(i) => Some(self.entries[i].1),
            None => None,
        }
    }
}

/// The outcome of resolving missing offsets: the mappings with the
/// resolved ones added, and the offsets that remain missing, in order.
pub open spec fn resolve_missing(
    t: Seq<(Seq<char>, Seq<TransformationView>)>,
    missing: Seq<GroupRecordView>,
    nearest: Seq<(GroupRecordView, i64)>,
) -> (Seq<(Seq<char>, Seq<TransformationView>)>, Seq<GroupRecordView>)
    decreases missing.len(),
{
    if missing.len() == 0 {
        (t, Seq::empty())
    } else {
        let (t1, still) = resolve_missing(t, missing.drop_last(), nearest);
        let m = missing.last();
        match value_of(nearest, m) {
            Some(n) => (add_transformation(t1, m.0, (m.1, m.2, m.3, n)), still),
            None => (t1, still.push(m)),
        }
    }
}

/// Handles missing offset transformations by attempting to find nearest available offsets.
///
/// Each missing source offset with a nearest offset gets a mapping to
/// it; the result is an error listing the source offsets that have none.
pub fn handle_missing_offsets(
    transformations: Transformations,
    missing_offsets: Vec<ConsumerGroupRecord>,
    nearest_offsets: NearestOffsets,
) -> (r: Result<Transformations, TransformationError>)
    ensures
        ({
            let (t, still) = resolve_missing(
                transformations@,
                group_record_views(missing_offsets@),
                nearest_offsets@,
            );
            match r {
                Ok(x) => still.len() == 0 && x@ == t,
                Err(TransformationError::MissingOffsets(v)) => still.len() > 0
                    && group_record_views(v@) == still,
                Err(_) => false,
            }
        }),
{
    let ghost m = group_record_views(missing_offsets@);
    let mut transformations = transformations;
    let ghost t0 = transformations@;
    let mut still_missing_offsets: Vec<ConsumerGroupRecord> = Vec::new();
    let mut i: usize = 0;
    proof {
        assert(m.take(0) =~= Seq::<GroupRecordView>::empty());
        assert(group_record_views(still_missing_offsets@) =~= Seq::<GroupRecordView>::empty());
    }
    while i < missing_offsets.len()
        invariant
            i <= missing_offsets@.len(),
            m == group_record_views(missing_offsets@),
            resolve_missing(t0, m.take(i as int), nearest_offsets@) == (
                transformations@,
                group_record_views(still_missing_offsets@),
            ),
        decreases missing_offsets@.len() - i,
    {
        let missing_offset = &missing_offsets[i];
        proof {
            assert(m.take(i + 1).drop_last() =~= m.take(i as int));
            assert(m.take(i + 1).last() == missing_offset@);
        }
        match nearest_offsets.get(missing_offset) {
            Some(nearest_offset) => {
                transformations.add(
                    missing_offset.0.clone(),
                    (missing_offset.1.clone(), missing_offset.2, missing_offset.3, nearest_offset),
                );
            },
            None => {
                let ghost before = still_missing_offsets@;
                let copy = copy_group_record(missing_offset);
                still_missing_offsets.push(copy);
                proof {
                    assert(group_record_views(still_missing_offsets@) =~= group_record_views(before).push(missing_offset@));
                }
            },
        }
        i = i + 1;
    }
    proof {
        assert(m.take(i as int) =~= m);
    }
    if still_missing_offsets.len() == 0 {
        Ok(transformations)
    } else {
        Err(TransformationError::MissingOffsets(still_missing_offsets))
    }
}

/// The state of the search for target offsets: mappings found, source
/// offsets still missing, and nearest later source offsets seen.
pub type SearchProgress = (
    Seq<(Seq<char>, Seq<TransformationView>)>,
    Seq<GroupRecordView>,
    Seq<(GroupRecordView, i64)>,
);

/// The source offsets without `r`.
pub open spec fn without_record(s: Seq<GroupRecordView>, r: GroupRecordView) -> Seq<GroupRecordView> {
    s.filter(other_than(r))
}

/// Whether a source offset is another one than `r`.
pub open spec fn other_than(r: GroupRecordView) -> spec_fn(GroupRecordView) -> bool {
    |x: GroupRecordView| x != r
}

/// The effect of one source offset record `o` on the progress, for a
/// message at `offset` of `topic`/`partition` that carries `source_offset`:
/// a record of that partition with the same source offset is mapped to
/// the message's offset and is no longer missing; a record with a smaller
/// source offset and no nearest offset yet gets this one as its nearest.
pub open spec fn find_step(
    p: SearchProgress,
    o: OffsetRecordView,
    topic: Seq<char>,
    partition: i32,
    offset: i64,
    source_offset: i64,
) -> SearchProgress {
    let (t, m, n) = p;
    let key = (o.consumer_group, o.topic, o.partition, o.offset);
    if !(o.partition == partition && o.topic == topic) {
        p
    } else if o.offset == source_offset {
        (
            add_transformation(t, o.consumer_group, (topic, partition, o.offset, offset)),
            without_record(m, key),
            n,
        )
    } else if value_of(n, key) is None && source_offset > o.offset {
        (t, m, set_value(n, key, source_offset))
    } else {
        p
    }
}

/// The effect of all source offset records, in order.
pub open spec fn find_fold(
    p: SearchProgress,
    records: Seq<OffsetRecordView>,
    topic: Seq<char>,
    partition: i32,
    offset: i64,
    source_offset: i64,
) -> SearchProgress
    decreases records.len(),
{
    if records.len() == 0 {
        p
    } else {
        find_step(
            find_fold(p, records.drop_last(), topic, partition, offset, source_offset),
            records.last(),
            topic,
            partition,
            offset,
            source_offset,
        )
    }
}

fn remove_missing(missing: &mut Vec<ConsumerGroupRecord>, r: &ConsumerGroupRecord)
    ensures
        group_record_views(final(missing)@) == without_record(group_record_views(old(missing)@), r@),
{
    let ghost s = group_record_views(missing@);
    let mut kept: Vec<ConsumerGroupRecord> = Vec::new();
    let mut i: usize = 0;
    proof {
        reveal_with_fuel(Seq::<_>::filter, 1);
        assert(s.take(0) =~= Seq::<GroupRecordView>::empty());
        assert(group_record_views(kept@) =~= Seq::<GroupRecordView>::empty());
    }
    while i < missing.len()
        invariant
            i <= missing@.len(),
            s == group_record_views(missing@),
            group_record_views(kept@) == without_record(s.take(i as int), r@),
        decreases missing@.len() - i,
    {
        let ghost before = kept@;
        let keep = !same_group_record(&missing[i], r);
        if keep {
            let c = copy_group_record(&missing[i]);
            kept.push(c);
            proof {
                assert(group_record_views(kept@) =~= group_record_views(before).push(s[i as int]));
            }
        }
        proof {
            reveal_with_fuel(Seq::<_>::filter, 1);
            assert(s.take(i + 1).drop_last() =~= s.take(i as int));
            assert(s.take(i + 1).last() == s[i as int]);
            if !keep {
                assert(group_record_views(kept@) =~= group_record_views(before));
            }
        }
        i = i + 1;
    }
    proof {
        assert(s.take(i as int) =~= s);
    }
    *missing = kept;
}

/// Records what a consumed message tells about the source offsets of its
/// partition: exact matches become mappings, and smaller source
/// offsets remember this message's source offset as their nearest.
pub fn try_find_missing_offsets(
    message: &ConsumedMessage,
    source_offset: i64,
    source_offsets: &OffsetSnapshot,
    transformations: &mut Transformations,
    missing_offsets: &mut Vec<ConsumerGroupRecord>,
    nearest_offsets: &mut NearestOffsets,
) -> (r: Result<(), TransformationError>)
    ensures
        r is Ok,
        (final(transformations)@, group_record_views(final(missing_offsets)@), final(nearest_offsets)@)
            == find_fold(
            (old(transformations)@, group_record_views(old(missing_offsets)@), old(nearest_offsets)@),
            snapshot_view(source_offsets@),
            message.topic@,
            message.partition,
            message.offset,
            source_offset,
        ),
{
    let ghost recs = snapshot_view(source_offsets@);
    let ghost p0 = (transformations@, group_record_views(missing_offsets@), nearest_offsets@);
    let mut i: usize = 0;
    proof {
        assert(recs.take(0) =~= Seq::<OffsetRecordView>::empty());
    }
    while i < source_offsets.len()
        invariant
            i <= source_offsets@.len(),
            recs == snapshot_view(source_offsets@),
            (transformations@, group_record_views(missing_offsets@), nearest_offsets@) == find_fold(
                p0,
                recs.take(i as int),
                message.topic@,
                message.partition,
                message.offset,
                source_offset,
            ),
        decreases source_offsets@.len() - i,
    {
        let offset = &source_offsets[i];
        proof {
            assert(recs.take(i + 1).drop_last() =~= recs.take(i as int));
            assert(recs.take(i + 1).last() == offset@);
        }
        if offset.partition == message.partition
            && compare_str(offset.topic.as_str(), message.topic.as_str()) == Cmp::Equal {
            let key: ConsumerGroupRecord = (
                offset.consumer_group.clone(),
                offset.topic.clone(),
                offset.partition,
                offset.offset,
            );
            if offset.offset == source_offset {
                let _ = insert_offset_transformations(
                    transformations,
                    &offset.offset,
                    &message.offset,
                    message.topic.clone(),
                    message.partition,
                    offset.consumer_group.clone(),
                );
                remove_missing(missing_offsets, &key);
            } else if !nearest_offsets.contains_key(&key) && source_offset > offset.offset {
                nearest_offsets.insert(key, source_offset);
            }
        }
        i = i + 1;
    }
    proof {
        assert(recs.take(i as int) =~= recs);
    }
    Ok(())
}

/// Checks that there are source offsets to map and a header key to
/// read them from.
pub fn validate_input_parameters(
    source_offsets: &OffsetSnapshot,
    offset_header_key: &str,
) -> (r: Result<(), TransformationError>)
    ensures
        source_offsets@.len() == 0 ==> (r matches Err(TransformationError::InvalidInput(m)) && m@
            == "Source offsets cannot be empty"@),
        source_offsets@.len() > 0 && offset_header_key@.len() == 0 ==> (r matches Err(
            TransformationError::InvalidInput(m),
        ) && m@ == "Offset header key cannot be empty"@),
        source_offsets@.len() > 0 && offset_header_key@.len() > 0 ==> r is Ok,
{
    if source_offsets.len() == 0 {
        return Err(TransformationError::InvalidInput(String::from_str("Source offsets cannot be empty")));
    }
    if offset_header_key.is_empty() {
        return Err(TransformationError::InvalidInput(String::from_str("Offset header key cannot be empty")));
    }
    Ok(())
}

/// The target offsets of the mappings: for each consumer group in
/// order, a record of each of its mappings with the target offset.
pub open spec fn target_records(t: Seq<(Seq<char>, Seq<TransformationView>)>) -> Seq<OffsetRecordView>
    decreases t.len(),
{
    if t.len() == 0 {
        Seq::empty()
    } else {
        target_records(t.drop_last()) + group_targets(t.last().0, t.last().1)
    }
}

/// The target offset records of the mappings of one consumer group.
pub open spec fn group_targets(group: Seq<char>, records: Seq<TransformationView>) -> Seq<OffsetRecordView> {
    records.map_values(|x: TransformationView| OffsetRecordView { consumer_group: group, topic: x.0, partition: x.1, offset: x.3 })
}

impl Transformations {
    /// The snapshot of target offsets that the mappings give.
    pub fn target_offsets(&self) -> (r: OffsetSnapshot)
        ensures
            snapshot_view(r@) == target_records(self@),
    {
        let ghost t = self@;
        let mut r: OffsetSnapshot = Vec::new();
        let mut i: usize = 0;
        proof {
            assert(t.take(0) =~= Seq::<(Seq<char>, Seq<TransformationView>)>::empty());
            assert(snapshot_view(r@) =~= Seq::<OffsetRecordView>::empty());
        }
        while i < self.entries.len()
            invariant
                i <= self.entries@.len(),
                t == self@,
                snapshot_view(r@) == target_records(t.take(i as int)),
            decreases self.entries@.len() - i,
        {
            let group = &self.entries[i].0;
            let records = &self.entries[i].1;
            let ghost before = snapshot_view(r@);
            let ghost g = t[i as int];
            proof {
                assert(g == (group@, transformation_views(records@)));
            }
            let mut j: usize = 0;
            while j < records.len()
                invariant
                    j <= records@.len(),
                    g == (group@, transformation_views(records@)),
                    snapshot_view(r@) == before + group_targets(g.0, g.1.take(j as int)),
                decreases records@.len() - j,
            {
                let x = &records[j];
                let ghost mid = snapshot_view(r@);
                let rec = OffsetRecord {
                    consumer_group: group.clone(),
                    topic: x.0.clone(),
                    partition: x.1,
                    offset: x.3,
                };
                r.push(rec);
                proof {
                    assert(g.1[j as int] == x@);
                    assert(g.1.take(j + 1) =~= g.1.take(j as int).push(x@));
                    assert(group_targets(g.0, g.1.take(j + 1)) =~= group_targets(g.0, g.1.take(j as int)).push(rec@));
                    assert(snapshot_view(r@) =~= mid.push(rec@));
                }
                j = j + 1;
            }
            proof {
                assert(g.1.take(j as int) =~= g.1);
                assert(t.take(i + 1).drop_last() =~= t.take(i as int));
                assert(t.take(i + 1).last() == g);
            }
            i = i + 1;
        }
        proof {
            assert(t.take(i as int) =~= t);
        }
        r
    }
}

/// Whether a missing source offset has a nearest offset to fall back to.
pub open spec fn has_nearest(nearest: Seq<(GroupRecordView, i64)>) -> spec_fn(GroupRecordView) -> bool {
    |m: GroupRecordView| value_of(nearest, m) is Some
}

/// Resolving missing offsets leaves missing exactly those without a nearest
/// offset, in order, and keeps every mapping found before.
pub proof fn law_resolve_missing(
    t: Seq<(Seq<char>, Seq<TransformationView>)>,
    missing: Seq<GroupRecordView>,
    nearest: Seq<(GroupRecordView, i64)>,
)
    ensures
        resolve_missing(t, missing, nearest).1 == missing.filter(|m: GroupRecordView| !has_nearest(nearest)(m)),
        forall|g: Seq<char>| #[trigger] value_of(t, g) is Some ==> value_of(resolve_missing(t, missing, nearest).0, g) is Some
            && value_of(t, g)->Some_0.is_prefix_of(value_of(resolve_missing(t, missing, nearest).0, g)->Some_0),
    decreases missing.len(),
{
    reveal_with_fuel(Seq::<_>::filter, 1);
    if missing.len() > 0 {
        law_resolve_missing(t, missing.drop_last(), nearest);
        let (t1, still) = resolve_missing(t, missing.drop_last(), nearest);
        let m = missing.last();
        assert(missing.drop_last() =~= missing.take(missing.len() - 1));
        match value_of(nearest, m) {
            Some(n) => {
                let rec = (m.1, m.2, m.3, n);
                law_add_transformation(t1, m.0, rec);
                assert forall|g: Seq<char>| #[trigger] value_of(t, g) is Some implies value_of(
                    resolve_missing(t, missing, nearest).0,
                    g,
                ) is Some && value_of(t, g)->Some_0.is_prefix_of(value_of(resolve_missing(t, missing, nearest).0, g)->Some_0) by {
                    if g == m.0 {
                        let a = value_of(t1, g)->Some_0;
                        assert(a.is_prefix_of(a.push(rec)));
                    }
                }
            },
            None => {},
        }
    }
}

/// The source offsets that a record of the message's partition with the
/// message's source offset stands for.
pub open spec fn matched_by(records: Seq<OffsetRecordView>, topic: Seq<char>, partition: i32, source_offset: i64, x: GroupRecordView) -> bool {
    exists|i: int| 0 <= i < records.len() && #[trigger] records[i].topic == topic && records[i].partition == partition
        && records[i].offset == source_offset && x == (records[i].consumer_group, records[i].topic, records[i].partition, records[i].offset)
}

/// What one message does to the search: source offsets it carries are
/// mapped to the message's offset and are no longer missing, no offset
/// becomes missing, a nearest offset once noted is never replaced, and
/// mappings found before are kept.
pub proof fn law_message_progress(
    p: SearchProgress,
    records: Seq<OffsetRecordView>,
    topic: Seq<char>,
    partition: i32,
    offset: i64,
    source_offset: i64,
)
    ensures
        ({
            let q = find_fold(p, records, topic, partition, offset, source_offset);
            &&& forall|x: GroupRecordView| #[trigger] q.1.contains(x) ==> p.1.contains(x)
            &&& forall|x: GroupRecordView| matched_by(records, topic, partition, source_offset, x) ==> !(#[trigger] q.1.contains(x))
            &&& forall|x: GroupRecordView| #[trigger] matched_by(records, topic, partition, source_offset, x) ==> (value_of(q.0, x.0) matches Some(v)
                && v.contains((topic, partition, source_offset, offset)))
            &&& forall|k: GroupRecordView| #[trigger] value_of(p.2, k) is Some ==> value_of(q.2, k) == value_of(p.2, k)
            &&& forall|g: Seq<char>| #[trigger] value_of(p.0, g) is Some ==> value_of(q.0, g) is Some
                && value_of(p.0, g)->Some_0.is_prefix_of(value_of(q.0, g)->Some_0)
        }),
    decreases records.len(),
{
    if records.len() > 0 {
        let prev = records.drop_last();
        law_message_progress(p, prev, topic, partition, offset, source_offset);
        let q0 = find_fold(p, prev, topic, partition, offset, source_offset);
        let o = records.last();
        let key = (o.consumer_group, o.topic, o.partition, o.offset);
        let q = find_step(q0, o, topic, partition, offset, source_offset);
        assert(q == find_fold(p, records, topic, partition, offset, source_offset));
        if o.partition == partition && o.topic == topic && o.offset == source_offset {
            let rec = (topic, partition, o.offset, offset);
            law_add_transformation(q0.0, o.consumer_group, rec);
            assert forall|x: GroupRecordView| #[trigger] q.1.contains(x) implies q0.1.contains(x) && x != key by {
                let j = choose|j: int| 0 <= j < q.1.len() && q.1[j] == x;
                q0.1.lemma_filter_pred(other_than(key), j);
                crate::keyed::lemma_filter_member(q0.1, other_than(key), j);
            }
            assert forall|g: Seq<char>| #[trigger] value_of(q0.0, g) is Some implies value_of(q.0, g) is Some
                && value_of(q0.0, g)->Some_0.is_prefix_of(value_of(q.0, g)->Some_0) by {
                if g == o.consumer_group {
                    let a = value_of(q0.0, g)->Some_0;
                    assert(a.is_prefix_of(a.push(rec)));
                }
            }
        } else if o.partition == partition && o.topic == topic && value_of(q0.2, key) is None && source_offset > o.offset {
            lemma_set_value(q0.2, key, source_offset);
        }
        assert forall|x: GroupRecordView| #[trigger] matched_by(records, topic, partition, source_offset, x) implies (value_of(q.0, x.0) matches Some(v)
            && v.contains((topic, partition, source_offset, offset))) by {
            let i = choose|i: int| 0 <= i < records.len() && #[trigger] records[i].topic == topic && records[i].partition == partition
                && records[i].offset == source_offset && x == (records[i].consumer_group, records[i].topic, records[i].partition, records[i].offset);
            let rec = (topic, partition, source_offset, offset);
            if i < records.len() - 1 {
                assert(prev[i] == records[i]);
                assert(matched_by(prev, topic, partition, source_offset, x));
                let a = value_of(q0.0, x.0)->Some_0;
                let b = value_of(q.0, x.0)->Some_0;
                assert(a.is_prefix_of(b));
                let k = choose|k: int| 0 <= k < a.len() && a[k] == rec;
                assert(b[k] == a[k]);
            } else {
                assert(o == records[i]);
                law_add_transformation(q0.0, o.consumer_group, rec);
                let v = value_of(q.0, x.0)->Some_0;
                assert(v[v.len() - 1] == rec);
            }
        }
        assert forall|x: GroupRecordView| matched_by(records, topic, partition, source_offset, x) implies !(#[trigger] q.1.contains(x)) by {
            let i = choose|i: int| 0 <= i < records.len() && #[trigger] records[i].topic == topic && records[i].partition == partition
                && records[i].offset == source_offset && x == (records[i].consumer_group, records[i].topic, records[i].partition, records[i].offset);
            if i < records.len() - 1 {
                assert(prev[i] == records[i]);
                assert(matched_by(prev, topic, partition, source_offset, x));
            }
        }
    }
}

/// The source offset a record stands for: (group, topic, partition, offset).
pub open spec fn source_key(o: OffsetRecordView) -> GroupRecordView {
    (o.consumer_group, o.topic, o.partition, o.offset)
}

/// The nearest offsets that one message notes: a source offset gets a
/// nearest offset only from a message of its own partition whose source
/// offset is strictly later than it, and that nearest offset is the
/// message's source offset; and every source offset of the message's
/// partition that is earlier than the message's source offset, and had no
/// nearest offset yet, gets it.
pub proof fn law_nearest_offsets_come_later(
    p: SearchProgress,
    records: Seq<OffsetRecordView>,
    topic: Seq<char>,
    partition: i32,
    offset: i64,
    source_offset: i64,
)
    ensures
        forall|k: GroupRecordView|
            value_of(p.2, k) is None && #[trigger] value_of(
                find_fold(p, records, topic, partition, offset, source_offset).2,
                k,
            ) is Some ==> value_of(find_fold(p, records, topic, partition, offset, source_offset).2, k)
                == Some(source_offset) && source_offset > k.3 && k.1 == topic && k.2 == partition,
        forall|i: int|
            0 <= i < records.len() && records[i].topic == topic && records[i].partition == partition
                && records[i].offset < source_offset && value_of(p.2, source_key(records[i])) is None
                ==> #[trigger] value_of(
                find_fold(p, records, topic, partition, offset, source_offset).2,
                source_key(records[i]),
            ) == Some(source_offset),
    decreases records.len(),
{
    if records.len() > 0 {
        let prev = records.drop_last();
        law_nearest_offsets_come_later(p, prev, topic, partition, offset, source_offset);
        let q0 = find_fold(p, prev, topic, partition, offset, source_offset);
        let o = records.last();
        let key = source_key(o);
        let q = find_fold(p, records, topic, partition, offset, source_offset);
        assert(q == find_step(q0, o, topic, partition, offset, source_offset));
        let setting = o.partition == partition && o.topic == topic && o.offset != source_offset && value_of(q0.2, key)
            is None && source_offset > o.offset;
        if setting {
            lemma_set_value(q0.2, key, source_offset);
            assert(q.2 == set_value(q0.2, key, source_offset));
        } else {
            assert(q.2 == q0.2);
        }
        assert forall|k: GroupRecordView|
            value_of(p.2, k) is None && #[trigger] value_of(q.2, k) is Some implies value_of(q.2, k) == Some(
                source_offset,
            ) && source_offset > k.3 && k.1 == topic && k.2 == partition by {
            if !(setting && k == key) {
                assert(value_of(q.2, k) == value_of(q0.2, k));
            }
        }
        assert forall|i: int|
            0 <= i < records.len() && records[i].topic == topic && records[i].partition == partition
                && records[i].offset < source_offset && value_of(p.2, source_key(records[i])) is None
                implies #[trigger] value_of(q.2, source_key(records[i])) == Some(source_offset) by {
            let ki = source_key(records[i]);
            if i < records.len() - 1 {
                assert(prev[i] == records[i]);
                assert(value_of(q0.2, ki) == Some(source_offset));
                if setting {
                    assert(ki != key);
                }
            } else {
                assert(records[i] == o);
                if !setting {
                    assert(value_of(q0.2, key) is Some);
                }
            }
        }
    }
}

/// The selector of the topics to subscribe to, the topics separated by
/// commas; an error when there is no topic.
pub fn topics_to_subscribe(topics: &Vec<String>) -> (r: Result<String, TransformationError>)
    ensures
        topics@.len() == 0 ==> (r matches Err(TransformationError::InvalidInput(m)) && m@ == "Topics list cannot be empty"@),
        topics@.len() > 0 ==> (r matches Ok(sel) && sel@ == join(string_views(topics@), ","@)),
{
    if topics.len() == 0 {
        return Err(TransformationError::InvalidInput(String::from_str("Topics list cannot be empty")));
    }
    Ok(join_strings(topics, ","))
}

} // verus!

//! Committed consumer group offsets as the cluster reports them: which
//! groups and topic partitions to ask for, and which answers to keep.

use vstd::prelude::*;

use crate::keyed::{
    distinct_keys, first_key_index, lemma_first_key_index, lemma_first_key_index_at,
    lemma_first_key_index_none, lemma_set_value, set_value, value_of,
};
use crate::record::{snapshot_view, OffsetRecord, OffsetRecordView, OffsetSnapshot};
use crate::text::{compare_str, contains_string, string_views, Cmp};

verus! {

/// The offset the cluster reports for a partition without a committed offset.
pub const NO_OFFSET: i64 = -1001;

/// The consumer groups of a cluster, and the partitions of each topic of
/// interest.
pub struct Metadata {
    pub consumer_groups: Vec<String>,
    pub topics_and_partitions: Vec<(String, Vec<i32>)>,
}

pub type TopicPartitionsView = Seq<(Seq<char>, Seq<i32>)>;

pub open spec fn partitions_view(s: Seq<(String, Vec<i32>)>) -> TopicPartitionsView {
    s.map_values(|e: (String, Vec<i32>)| (e.0@, e.1@))
}

/// Whether a topic is of interest: every topic when none is given.
pub open spec fn wanted(topics: Seq<Seq<char>>, topic: Seq<char>) -> bool {
    topics.len() == 0 || topics.contains(topic)
}

/// The partitions of the wanted topics of `cluster` (topic names with their
/// partitions), the partitions of a topic named twice joined in order; a
/// topic without partitions has no entry.
pub open spec fn topic_partitions_spec(topics: Seq<Seq<char>>, cluster: TopicPartitionsView) -> TopicPartitionsView
    decreases cluster.len(),
{
    if cluster.len() == 0 {
        Seq::empty()
    } else {
        let acc = topic_partitions_spec(topics, cluster.drop_last());
        let (t, parts) = cluster.last();
        if !wanted(topics, t) || parts.len() == 0 {
            acc
        } else {
            match value_of(acc, t) {
                Some(v) => set_value(acc, t, v + parts),
                None => set_value(acc, t, parts),
            }
        }
    }
}

fn find_topic(s: &Vec<(String, Vec<i32>)>, topic: &str) -> (r: Option<usize>)
    ensures
        first_key_index(partitions_view(s@), topic@) == match r {
            Some(i) => Some(i as int),
            None => None::<int>,
        },
        r matches Some(i) ==> i < s@.len(),
{
    let ghost v = partitions_view(s@);
    let mut i: usize = 0;
    while i < s.len()
        invariant
            i <= s@.len(),
            v == partitions_view(s@),
            forall|j: int| 0 <= j < i ==> #[trigger] v[j].0 != topic@,
        decreases s@.len() - i,
    {
        if compare_str(s[i].0.as_str(), topic) == Cmp::Equal {
            proof {
                lemma_first_key_index_at(v, topic@, i as int);
            }
            return Some(i);
        }
        i = i + 1;
    }
    proof {
        lemma_first_key_index_none(v, topic@);
    }
    None
}

fn append_partitions(a: &Vec<i32>, b: &Vec<i32>) -> (r: Vec<i32>)
    ensures
        r@ == a@ + b@,
{
    let mut r: Vec<i32> = Vec::new();
    let mut i: usize = 0;
    while i < a.len()
        invariant
            i <= a@.len(),
            r@ == a@.take(i as int),
        decreases a@.len() - i,
    {
        r.push(a[i]);
        proof {
            assert(a@.take(i + 1) =~= a@.take(i as int).push(a@[i as int]));
        }
        i = i + 1;
    }
    let mut j: usize = 0;
    proof {
        assert(a@.take(i as int) =~= a@);
    }
    while j < b.len()
        invariant
            j <= b@.len(),
            r@ == a@ + b@.take(j as int),
        decreases b@.len() - j,
    {
        r.push(b[j]);
        proof {
            assert(b@.take(j + 1) =~= b@.take(j as int).push(b@[j as int]));
            assert(a@ + b@.take(j + 1) =~= (a@ + b@.take(j as int)).push(b@[j as int]));
        }
        j = j + 1;
    }
    proof {
        assert(b@.take(j as int) =~= b@);
    }
    r
}

impl Metadata {
    /// The metadata of a cluster with the consumer groups `consumer_groups`
    /// and the topics `cluster` (names with their partitions), kept to the
    /// topics in `topics` (all topics when none is given).
    pub fn new(topics: &Vec<String>, cluster: &Vec<(String, Vec<i32>)>, consumer_groups: Vec<String>) -> (r: Metadata)
        ensures
            r.consumer_groups@ == consumer_groups@,
            partitions_view(r.topics_and_partitions@) == topic_partitions_spec(
                string_views(topics@),
                partitions_view(cluster@),
            ),
            distinct_keys(partitions_view(r.topics_and_partitions@)),
    {
        let ghost ts = string_views(topics@);
        let ghost c = partitions_view(cluster@);
        let mut acc: Vec<(String, Vec<i32>)> = Vec::new();
        let mut i: usize = 0;
        proof {
            assert(c.take(0) =~= TopicPartitionsView::empty());
            assert(partitions_view(acc@) =~= TopicPartitionsView::empty());
        }
        while i < cluster.len()
            invariant
                i <= cluster@.len(),
                ts == string_views(topics@),
                c == partitions_view(cluster@),
                partitions_view(acc@) == topic_partitions_spec(ts, c.take(i as int)),
                distinct_keys(partitions_view(acc@)),
            decreases cluster@.len() - i,
        {
            proof {
                assert(c.take(i + 1).drop_last() =~= c.take(i as int));
                assert(c.take(i + 1).last() == c[i as int]);
            }
            let keep = (topics.len() == 0 || contains_string(topics, cluster[i].0.as_str()))
                && cluster[i].1.len() > 0;
            if keep {
                let ghost before = partitions_view(acc@);
                let ghost t = c[i as int].0;
                match find_topic(&acc, cluster[i].0.as_str()) {
                    Some(j) => {
                        proof {
                            lemma_first_key_index(before, t);
                        }
                        let joined = append_partitions(&acc[j].1, &cluster[i].1);
                        let ghost entry = (t, joined@);
                        proof {
                            lemma_set_value(before, t, joined@);
                        }
                        acc.set(j, (cluster[i].0.clone(), joined));
                        proof {
                            assert(partitions_view(acc@) =~= before.update(j as int, entry));
                        }
                    },
                    None => {
                        let ghost entry = (t, cluster@[i as int].1@);
                        proof {
                            lemma_set_value(before, t, cluster@[i as int].1@);
                        }
                        acc.push((cluster[i].0.clone(), append_partitions(&Vec::new(), &cluster[i].1)));
                        proof {
                            assert(partitions_view(acc@) =~= before.push(entry));
                        }
                    },
                }
            }
            i = i + 1;
        }
        proof {
            assert(c.take(i as int) =~= c);
        }
        Metadata { consumer_groups, topics_and_partitions: acc }
    }
}

/// A committed offset as the cluster reports it: (topic, partition, offset),
/// the offset `None` when the cluster could not report it.
pub type CommittedOffset = (String, i32, Option<i64>);

pub type CommittedOffsetView = (Seq<char>, i32, Option<i64>);

pub open spec fn committed_views(s: Seq<CommittedOffset>) -> Seq<CommittedOffsetView> {
    s.map_values(|e: CommittedOffset| (e.0@, e.1, e.2))
}

/// Whether a reported offset is kept: its topic is of interest (every topic
/// when the metadata names none) and it has a committed offset.
pub open spec fn kept_offset(tp: TopicPartitionsView, e: CommittedOffsetView) -> bool {
    &&& (tp.len() == 0 || value_of(tp, e.0) is Some)
    &&& e.2 matches Some(v) && v != NO_OFFSET
}

/// The records of the offsets of `group` that are kept, in order.
pub open spec fn committed_records(tp: TopicPartitionsView, group: Seq<char>, offsets: Seq<CommittedOffsetView>) -> Seq<
    OffsetRecordView,
>
    decreases offsets.len(),
{
    if offsets.len() == 0 {
        Seq::empty()
    } else {
        let prev = committed_records(tp, group, offsets.drop_last());
        let e = offsets.last();
        if kept_offset(tp, e) {
            prev.push(OffsetRecordView { consumer_group: group, topic: e.0, partition: e.1, offset: e.2->Some_0 })
        } else {
            prev
        }
    }
}

/// Adds to `snapshot` the records of the committed offsets of `group` that
/// are kept.
pub fn collect_committed_offsets(
    metadata: &Metadata,
    group: &str,
    offsets: &Vec<CommittedOffset>,
    snapshot: &mut OffsetSnapshot,
)
    ensures
        snapshot_view(final(snapshot)@) == snapshot_view(old(snapshot)@) + committed_records(
            partitions_view(metadata.topics_and_partitions@),
            group@,
            committed_views(offsets@),
        ),
{
    let ghost tp = partitions_view(metadata.topics_and_partitions@);
    let ghost o = committed_views(offsets@);
    let ghost start = snapshot_view(snapshot@);
    let mut i: usize = 0;
    proof {
        assert(o.take(0) =~= Seq::<CommittedOffsetView>::empty());
        assert(start + committed_records(tp, group@, o.take(0)) =~= start);
    }
    while i < offsets.len()
        invariant
            i <= offsets@.len(),
            tp == partitions_view(metadata.topics_and_partitions@),
            o == committed_views(offsets@),
            snapshot_view(snapshot@) == start + committed_records(tp, group@, o.take(i as int)),
        decreases offsets@.len() - i,
    {
        proof {
            assert(o.take(i + 1).drop_last() =~= o.take(i as int));
            assert(o.take(i + 1).last() == o[i as int]);
        }
        let topic_ok = metadata.topics_and_partitions.len() == 0 || find_topic(
            &metadata.topics_and_partitions,
            offsets[i].0.as_str(),
        ).is_some();
        proof {
            if metadata.topics_and_partitions@.len() > 0 {
                lemma_first_key_index(tp, o[i as int].0);
            }
        }
        if topic_ok {
            match offsets[i].2 {
                Some(value) => {
                    if value != NO_OFFSET {
                        let ghost before = snapshot_view(snapshot@);
                        let record = OffsetRecord {
                            consumer_group: group.to_owned(),
                            topic: offsets[i].0.clone(),
                            partition: offsets[i].1,
                            offset: value,
                        };
                        snapshot.push(record);
                        proof {
                            assert(snapshot_view(snapshot@) =~= before.push(record@));
                        }
                    }
                },
                None => {},
            }
        }
        proof {
            let prev = committed_records(tp, group@, o.take(i as int));
            assert(start + prev.push(
                OffsetRecordView { consumer_group: group@, topic: o[i as int].0, partition: o[i as int].1, offset: o[i as int].2->Some_0 },
            ) =~= (start + prev).push(
                OffsetRecordView { consumer_group: group@, topic: o[i as int].0, partition: o[i as int].1, offset: o[i as int].2->Some_0 },
            ));
        }
        i = i + 1;
    }
    proof {
        assert(o.take(i as int) =~= o);
    }
}

/// Every record kept from the committed offsets of a group is of that
/// group, has a committed offset, and is on a topic of interest.
pub proof fn law_committed_records_are_committed(tp: TopicPartitionsView, group: Seq<char>, offsets: Seq<CommittedOffsetView>)
    ensures
        forall|i: int| 0 <= i < committed_records(tp, group, offsets).len() ==> {
            let r = #[trigger] committed_records(tp, group, offsets)[i];
            &&& r.consumer_group == group
            &&& r.offset != NO_OFFSET
            &&& (tp.len() == 0 || value_of(tp, r.topic) is Some)
        },
    decreases offsets.len(),
{
    if offsets.len() > 0 {
        law_committed_records_are_committed(tp, group, offsets.drop_last());
    }
}

/// No committed offset is lost: every reported offset of a topic of
/// interest (every topic when the metadata names none) that is `Some(v)`
/// with `v` other than `NO_OFFSET` (-1001) gives the record (group, topic,
/// partition, v); and every record kept is such a reported offset.
pub proof fn law_committed_offsets_are_kept(tp: TopicPartitionsView, group: Seq<char>, offsets: Seq<CommittedOffsetView>)
    ensures
        forall|i: int, v: i64|
            0 <= i < offsets.len() && (tp.len() == 0 || value_of(tp, offsets[i].0) is Some)
                && #[trigger] offsets[i].2 == Some(v) && v != -1001 ==> #[trigger] committed_records(
                tp,
                group,
                offsets,
            ).contains(OffsetRecordView { consumer_group: group, topic: offsets[i].0, partition: offsets[i].1, offset: v }),
        forall|k: int|
            0 <= k < committed_records(tp, group, offsets).len() ==> exists|i: int|
                0 <= i < offsets.len() && #[trigger] offsets[i].2 == Some(
                    (#[trigger] committed_records(tp, group, offsets)[k]).offset,
                ) && offsets[i].0 == committed_records(tp, group, offsets)[k].topic && offsets[i].1
                    == committed_records(tp, group, offsets)[k].partition,
    decreases offsets.len(),
{
    if offsets.len() > 0 {
        let prev_offsets = offsets.drop_last();
        law_committed_offsets_are_kept(tp, group, prev_offsets);
        let prev = committed_records(tp, group, prev_offsets);
        let r = committed_records(tp, group, offsets);
        let e = offsets.last();
        let rec = OffsetRecordView { consumer_group: group, topic: e.0, partition: e.1, offset: e.2->Some_0 };
        assert(r == if kept_offset(tp, e) { prev.push(rec) } else { prev });
        assert forall|i: int, v: i64|
            0 <= i < offsets.len() && (tp.len() == 0 || value_of(tp, offsets[i].0) is Some)
                && #[trigger] offsets[i].2 == Some(v) && v != -1001 implies #[trigger] r.contains(
                OffsetRecordView { consumer_group: group, topic: offsets[i].0, partition: offsets[i].1, offset: v },
            ) by {
            let want = OffsetRecordView { consumer_group: group, topic: offsets[i].0, partition: offsets[i].1, offset: v };
            if i < offsets.len() - 1 {
                assert(prev_offsets[i] == offsets[i]);
                assert(prev.contains(want));
                let k = choose|k: int| 0 <= k < prev.len() && prev[k] == want;
                assert(r[k] == prev[k]);
            } else {
                assert(e == offsets[i]);
                assert(r[r.len() - 1] == want);
            }
        }
        assert forall|k: int| 0 <= k < r.len() implies exists|i: int|
            0 <= i < offsets.len() && #[trigger] offsets[i].2 == Some((#[trigger] r[k]).offset) && offsets[i].0 == r[k].topic
                && offsets[i].1 == r[k].partition by {
            if k < prev.len() {
                assert(r[k] == prev[k]);
                let i = choose|i: int|
                    0 <= i < prev_offsets.len() && #[trigger] prev_offsets[i].2 == Some((#[trigger] prev[k]).offset)
                        && prev_offsets[i].0 == prev[k].topic && prev_offsets[i].1 == prev[k].partition;
                assert(offsets[i] == prev_offsets[i]);
            } else {
                assert(offsets[offsets.len() - 1] == e);
            }
        }
    }
}

} // verus!

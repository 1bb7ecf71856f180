//! Low and high watermarks per topic partition, and the partitions that
//! remain to be searched.

use vstd::prelude::*;
use vstd::string::StringExecFns;

use crate::errors::TransformationError;
use crate::message::ConsumedMessage;
use crate::text::{compare_str, contains_string, decimal, format_i64, string_views, Cmp};

verus! {

/// Watermarks of one partition: (topic, partition, low, high).
pub type WatermarkEntry = (Seq<char>, i32, i64, i64);

/// Low and high watermarks per topic partition.
#[derive(Debug, Clone)]
pub struct TopicPartitionWatermarks {
    entries: Vec<(String, i32, i64, i64)>,
}

/// The watermarks of the first entry for `topic` and `partition`.
pub open spec fn watermark_of(s: Seq<WatermarkEntry>, topic: Seq<char>, partition: i32) -> Option<(i64, i64)>
    decreases s.len(),
{
    if s.len() == 0 {
        None
    } else if s[0].0 == topic && s[0].1 == partition {
        Some((s[0].2, s[0].3))
    } else {
        watermark_of(s.drop_first(), topic, partition)
    }
}

/// The message that no watermark is known for a topic partition.
pub open spec fn no_watermark_message(topic: Seq<char>, partition: i32) -> Seq<char> {
    "No watermark found for topic "@ + topic + " partition "@ + decimal(partition as int)
}

impl View for TopicPartitionWatermarks {
    type V = Seq<WatermarkEntry>;

    closed spec fn view(&self) -> Seq<WatermarkEntry> {
        self.entries@.map_values(|e: (String, i32, i64, i64)| (e.0@, e.1, e.2, e.3))
    }
}

impl TopicPartitionWatermarks {
    /// No watermarks.
    pub fn new() -> (r: Self)
        ensures
            r@ == Seq::<WatermarkEntry>::empty(),
    {
        let r = TopicPartitionWatermarks { entries: Vec::new() };
        proof {
            assert(r@ =~= Seq::<WatermarkEntry>::empty());
        }
        r
    }

    /// Sets the watermarks of a topic partition, replacing earlier ones.
    pub fn insert(&mut self, topic: String, partition: i32, low: i64, high: i64)
        ensures
            watermark_of(final(self)@, topic@, partition) == Some((low, high)),
            forall|t: Seq<char>, p: i32|
                !(t == topic@ && p == partition) ==> watermark_of(final(self)@, t, p)
                    == watermark_of(old(self)@, t, p),
    {
        let ghost old_view = self@;
        let ghost k = (topic@, partition);
        match self.position(topic.as_str(), partition) {
            Some(i) => {
                self.entries.set(i, (topic, partition, low, high));
                proof {
                    assert(self@ =~= old_view.update(i as int, (k.0, k.1, low, high)));
                    lemma_watermark_update(old_view, i as int, (k.0, k.1, low, high));
                }
            },
            None => {
                proof {
                    lemma_watermark_none(old_view, k.0, k.1);
                }
                self.entries.push((topic, partition, low, high));
                proof {
                    assert(self@ =~= old_view.push((k.0, k.1, low, high)));
                    lemma_watermark_push(old_view, (k.0, k.1, low, high));
                }
            },
        }
    }

    /// The index of the first entry for the topic partition.
    fn position(&self, topic: &str, partition: i32) -> (r: Option<usize>)
        ensures
            match r {
                Some(i) => i < self@.len() && self@[i as int].0 == topic@ && self@[i as int].1
                    == partition && forall|j: int|
                    0 <= j < i ==> !(#[trigger] self@[j].0 == topic@ && self@[j].1 == partition),
                None => forall|j: int|
                    0 <= j < self@.len() ==> !(#[trigger] self@[j].0 == topic@ && self@[j].1
                        == partition),
            },
    {
        let mut i: usize = 0;
        while i < self.entries.len()
            invariant
                i <= self@.len(),
                self@.len() == self.entries@.len(),
                forall|j: int| 0 <= j < i ==> !(#[trigger] self@[j].0 == topic@ && self@[j].1 == partition),
            decreases self.entries@.len() - i,
        {
            let e = &self.entries[i];
            if compare_str(e.0.as_str(), topic) == Cmp::Equal && e.1 == partition {
                return Some(i);
            }
            i = i + 1;
        }
        None
    }

    /// The watermarks of a topic partition, if known.
    pub fn get(&self, topic: &str, partition: i32) -> (r: Option<(i64, i64)>)
        ensures
            r == watermark_of(self@, topic@, partition),
    {
        match self.position(topic, partition) {
            Some(i) => {
                proof {
                    lemma_watermark_first(self@, i as int, topic@, partition);
                }
                Some((self.entries[i].2, self.entries[i].3))
            },
            None => {
                proof {
                    lemma_watermark_none(self@, topic@, partition);
                }
                None
            },
        }
    }

    /// The topic partitions that have watermarks, in order.
    pub fn partitions(&self) -> (r: Vec<(String, i32)>)
        ensures
            r@.len() == self@.len(),
            forall|i: int| 0 <= i < r@.len() ==> (#[trigger] r@[i]).0@ == self@[i].0 && r@[i].1 == self@[i].1,
    {
        let mut r: Vec<(String, i32)> = Vec::new();
        let mut i: usize = 0;
        while i < self.entries.len()
            invariant
                i <= self@.len(),
                self@.len() == self.entries@.len(),
                r@.len() == i,
                forall|j: int| 0 <= j < i ==> (#[trigger] r@[j]).0@ == self@[j].0 && r@[j].1 == self@[j].1,
            decreases self.entries@.len() - i,
        {
            r.push((self.entries[i].0.clone(), self.entries[i].1));
            i = i + 1;
        }
        r
    }
}

proof fn lemma_watermark_first(s: Seq<WatermarkEntry>, i: int, t: Seq<char>, p: i32)
    requires
        0 <= i < s.len(),
        s[i].0 == t && s[i].1 == p,
        forall|j: int| 0 <= j < i ==> !(#[trigger] s[j].0 == t && s[j].1 == p),
    ensures
        watermark_of(s, t, p) == Some((s[i].2, s[i].3)),
    decreases i,
{
    if i > 0 {
        assert(!(s[0].0 == t && s[0].1 == p));
        assert forall|j: int| 0 <= j < i - 1 implies !(#[trigger] s.drop_first()[j].0 == t && s.drop_first()[j].1 == p) by {
            assert(s.drop_first()[j] == s[j + 1]);
        }
        assert(s.drop_first()[i - 1] == s[i]);
        lemma_watermark_first(s.drop_first(), i - 1, t, p);
    }
}

proof fn lemma_watermark_none(s: Seq<WatermarkEntry>, t: Seq<char>, p: i32)
    requires
        forall|j: int| 0 <= j < s.len() ==> !(#[trigger] s[j].0 == t && s[j].1 == p),
    ensures
        watermark_of(s, t, p) is None,
    decreases s.len(),
{
    if s.len() > 0 {
        assert(!(s[0].0 == t && s[0].1 == p));
        assert forall|j: int| 0 <= j < s.len() - 1 implies !(#[trigger] s.drop_first()[j].0 == t && s.drop_first()[j].1 == p) by {
            assert(s.drop_first()[j] == s[j + 1]);
        }
        lemma_watermark_none(s.drop_first(), t, p);
    }
}

proof fn lemma_watermark_push(s: Seq<WatermarkEntry>, e: WatermarkEntry)
    requires
        watermark_of(s, e.0, e.1) is None,
    ensures
        watermark_of(s.push(e), e.0, e.1) == Some((e.2, e.3)),
        forall|t: Seq<char>, p: i32|
            !(t == e.0 && p == e.1) ==> watermark_of(s.push(e), t, p) == watermark_of(s, t, p),
    decreases s.len(),
{
    if s.len() > 0 {
        assert(s.push(e).drop_first() =~= s.drop_first().push(e));
        assert(s.push(e)[0] == s[0]);
        lemma_watermark_push(s.drop_first(), e);
        assert forall|t: Seq<char>, p: i32|
            !(t == e.0 && p == e.1) implies watermark_of(s.push(e), t, p) == watermark_of(s, t, p) by {
            assert(s.push(e)[0] == s[0]);
            if !(s[0].0 == t && s[0].1 == p) {
                assert(watermark_of(s.push(e), t, p) == watermark_of(s.drop_first().push(e), t, p));
                assert(watermark_of(s.drop_first().push(e), t, p) == watermark_of(s.drop_first(), t, p));
            }
        }
    } else {
        assert(s.push(e).drop_first() =~= Seq::<WatermarkEntry>::empty());
        assert forall|t: Seq<char>, p: i32|
            !(t == e.0 && p == e.1) implies watermark_of(s.push(e), t, p) == watermark_of(s, t, p) by {
            assert(s.push(e)[0] == e);
            assert(watermark_of(s.push(e).drop_first(), t, p) is None);
        }
    }
}

proof fn lemma_watermark_update(s: Seq<WatermarkEntry>, i: int, e: WatermarkEntry)
    requires
        0 <= i < s.len(),
        s[i].0 == e.0 && s[i].1 == e.1,
        forall|j: int| 0 <= j < i ==> !(#[trigger] s[j].0 == e.0 && s[j].1 == e.1),
    ensures
        watermark_of(s.update(i, e), e.0, e.1) == Some((e.2, e.3)),
        forall|t: Seq<char>, p: i32|
            !(t == e.0 && p == e.1) ==> watermark_of(s.update(i, e), t, p) == watermark_of(s, t, p),
    decreases i,
{
    if i > 0 {
        assert(s.update(i, e).drop_first() =~= s.drop_first().update(i - 1, e));
        assert forall|j: int| 0 <= j < i - 1 implies !(#[trigger] s.drop_first()[j].0 == e.0 && s.drop_first()[j].1 == e.1) by {
            assert(s.drop_first()[j] == s[j + 1]);
        }
        assert(s.drop_first()[i - 1] == s[i]);
        assert(!(s[0].0 == e.0 && s[0].1 == e.1));
        lemma_watermark_update(s.drop_first(), i - 1, e);
        assert forall|t: Seq<char>, p: i32|
            !(t == e.0 && p == e.1) implies watermark_of(s.update(i, e), t, p) == watermark_of(s, t, p) by {
            assert(s.update(i, e)[0] == s[0]);
            if !(s[0].0 == t && s[0].1 == p) {
                assert(watermark_of(s.update(i, e), t, p) == watermark_of(s.drop_first().update(i - 1, e), t, p));
                assert(watermark_of(s.drop_first().update(i - 1, e), t, p) == watermark_of(s.drop_first(), t, p));
            }
        }
    } else {
        assert(s.update(i, e).drop_first() =~= s.drop_first());
        assert forall|t: Seq<char>, p: i32|
            !(t == e.0 && p == e.1) implies watermark_of(s.update(i, e), t, p) == watermark_of(s, t, p) by {
            assert(s.update(i, e)[0] == e);
        }
    }
}

/// Which of the two watermarks of a partition to read.
enum WaterMark {
    High,
    Low,
}

fn no_watermark_error(topic: &str, partition: i32) -> (e: TransformationError)
    ensures
        e matches TransformationError::InvalidInput(m) && m@ == no_watermark_message(topic@, partition),
{
    let mut m = String::from_str("No watermark found for topic ");
    m.append(topic);
    m.append(" partition ");
    let p = format_i64(partition as i64);
    m.append(p.as_str());
    TransformationError::InvalidInput(m)
}

/// The low and high watermarks of a topic partition.
pub fn get_topic_partition_watermarks(
    topic_partition_watermarks: &TopicPartitionWatermarks,
    topic: &str,
    partition: i32,
) -> (r: Result<(i64, i64), TransformationError>)
    ensures
        match watermark_of(topic_partition_watermarks@, topic@, partition) {
            Some(w) => r == Ok::<(i64, i64), TransformationError>(w),
            None => r matches Err(TransformationError::InvalidInput(m)) && m@ == no_watermark_message(topic@, partition),
        },
{
    match topic_partition_watermarks.get(topic, partition) {
        Some(w) => Ok(w),
        None => Err(no_watermark_error(topic, partition)),
    }
}

/// Gets high watermark for specified topic/partition combination
pub fn get_topic_partition_high_watermark(
    topic_partition_watermarks: &TopicPartitionWatermarks,
    topic: &str,
    partition: i32,
) -> (r: Result<i64, TransformationError>)
    ensures
        match watermark_of(topic_partition_watermarks@, topic@, partition) {
            Some(w) => r == Ok::<i64, TransformationError>(w.1),
            None => r matches Err(TransformationError::InvalidInput(m)) && m@ == no_watermark_message(topic@, partition),
        },
{
    get_topic_partition_watermark(topic_partition_watermarks, topic, partition, WaterMark::High)
}

fn get_topic_partition_watermark(
    topic_partition_watermarks: &TopicPartitionWatermarks,
    topic: &str,
    partition: i32,
    water_mark: WaterMark,
) -> (r: Result<i64, TransformationError>)
    ensures
        match watermark_of(topic_partition_watermarks@, topic@, partition) {
            Some(w) => r == Ok::<i64, TransformationError>(
                match water_mark {
                    WaterMark::High => w.1,
                    WaterMark::Low => w.0,
                },
            ),
            None => r matches Err(TransformationError::InvalidInput(m)) && m@ == no_watermark_message(topic@, partition),
        },
{
    match topic_partition_watermarks.get(topic, partition) {
        Some(w) => match water_mark {
            WaterMark::Low => Ok(w.0),
            WaterMark::High => Ok(w.1),
        },
        None => Err(no_watermark_error(topic, partition)),
    }
}

/// A partition still to search: (topic, partition).
pub open spec fn partition_views(s: Seq<(String, i32)>) -> Seq<(Seq<char>, i32)> {
    s.map_values(|x: (String, i32)| (x.0@, x.1))
}

/// The partitions without the given one.
pub open spec fn without_partition(s: Seq<(Seq<char>, i32)>, topic: Seq<char>, partition: i32) -> Seq<
    (Seq<char>, i32),
> {
    s.filter(|x: (Seq<char>, i32)| !(x.0 == topic && x.1 == partition))
}

/// Updates the list of partitions that still need to be checked for messages:
/// a partition is done once the message at the offset just before its high
/// watermark has been seen.
pub fn update_partitions_to_search(
    message: &ConsumedMessage,
    topic_partition_watermarks: &TopicPartitionWatermarks,
    partitions_to_search: &mut Vec<(String, i32)>,
) -> (r: Result<(), TransformationError>)
    ensures
        match watermark_of(topic_partition_watermarks@, message.topic@, message.partition) {
            Some(w) => r is Ok && partition_views(final(partitions_to_search)@) == if w.1 == message.offset + 1 {
                without_partition(partition_views(old(partitions_to_search)@), message.topic@, message.partition)
            } else {
                partition_views(old(partitions_to_search)@)
            },
            None => r matches Err(TransformationError::InvalidInput(m)) && m@ == no_watermark_message(message.topic@, message.partition)
                && final(partitions_to_search)@ == old(partitions_to_search)@,
        },
{
    let water_mark = get_topic_partition_high_watermark(
        topic_partition_watermarks,
        message.topic.as_str(),
        message.partition,
    )?;

    if message.offset < i64::MAX && water_mark == message.offset + 1 {
        retain_other_partitions(partitions_to_search, message.topic.as_str(), message.partition);
    }
    Ok(())
}

fn retain_other_partitions(partitions: &mut Vec<(String, i32)>, topic: &str, partition: i32)
    ensures
        partition_views(final(partitions)@) == without_partition(partition_views(old(partitions)@), topic@, partition),
{
    let ghost s = partition_views(partitions@);
    let mut kept: Vec<(String, i32)> = Vec::new();
    let mut i: usize = 0;
    proof {
        reveal_with_fuel(Seq::<_>::filter, 1);
        assert(s.take(0) =~= Seq::<(Seq<char>, i32)>::empty());
        assert(partition_views(kept@) =~= Seq::<(Seq<char>, i32)>::empty());
    }
    while i < partitions.len()
        invariant
            i <= partitions@.len(),
            s == partition_views(partitions@),
            partition_views(kept@) == without_partition(s.take(i as int), topic@, partition),
        decreases partitions@.len() - i,
    {
        let keep = !(compare_str(partitions[i].0.as_str(), topic) == Cmp::Equal && partitions[i].1 == partition);
        let ghost before = kept@;
        if keep {
            let name = partitions[i].0.clone();
            kept.push((name, partitions[i].1));
            proof {
                assert(kept@ =~= before.push((name, partitions@[i as int].1)));
            }
        }
        proof {
            reveal_with_fuel(Seq::<_>::filter, 1);
            let t = s.take(i + 1);
            assert(t.drop_last() =~= s.take(i as int));
            assert(t.last() == s[i as int]);
            assert(s[i as int] == (partitions@[i as int].0@, partitions@[i as int].1));
            assert(without_partition(t, topic@, partition) == if keep {
                without_partition(s.take(i as int), topic@, partition).push(s[i as int])
            } else {
                without_partition(s.take(i as int), topic@, partition)
            });
            if keep {
                assert(partition_views(kept@) =~= partition_views(before).push(s[i as int]));
            } else {
                assert(partition_views(kept@) =~= partition_views(before));
            }
        }
        i = i + 1;
    }
    proof {
        assert(s.take(i as int) =~= s);
    }
    *partitions = kept;
}

/// The topic partitions whose watermarks are to be fetched: every
/// partition of the listed topics of the cluster metadata, in order.
pub open spec fn watermark_requests_spec(
    metadata: Seq<(Seq<char>, Seq<i32>)>,
    topics: Seq<Seq<char>>,
) -> Seq<(Seq<char>, i32)>
    decreases metadata.len(),
{
    if metadata.len() == 0 {
        Seq::empty()
    } else {
        let rest = watermark_requests_spec(metadata.drop_last(), topics);
        let (name, partitions) = metadata.last();
        if topics.contains(name) {
            rest + partitions.map_values(|p: i32| (name, p))
        } else {
            rest
        }
    }
}

pub open spec fn metadata_views(s: Seq<(String, Vec<i32>)>) -> Seq<(Seq<char>, Seq<i32>)> {
    s.map_values(|x: (String, Vec<i32>)| (x.0@, x.1@))
}

/// The topic partitions whose watermarks are to be fetched, from the
/// cluster metadata (each topic with its partitions) and the topics of
/// interest.
pub fn watermark_requests(metadata: &Vec<(String, Vec<i32>)>, topics: &Vec<String>) -> (r: Vec<(String, i32)>)
    ensures
        partition_views(r@) == watermark_requests_spec(metadata_views(metadata@), string_views(topics@)),
{
    let ghost m = metadata_views(metadata@);
    let mut r: Vec<(String, i32)> = Vec::new();
    let mut i: usize = 0;
    proof {
        assert(m.take(0) =~= Seq::<(Seq<char>, Seq<i32>)>::empty());
        assert(partition_views(r@) =~= Seq::<(Seq<char>, i32)>::empty());
    }
    while i < metadata.len()
        invariant
            i <= metadata@.len(),
            m == metadata_views(metadata@),
            partition_views(r@) == watermark_requests_spec(m.take(i as int), string_views(topics@)),
        decreases metadata@.len() - i,
    {
        let name = &metadata[i].0;
        let partitions = &metadata[i].1;
        proof {
            assert(m.take(i + 1).drop_last() =~= m.take(i as int));
            assert(m.take(i + 1).last() == m[i as int]);
        }
        if contains_string(topics, name.as_str()) {
            let ghost before = partition_views(r@);
            let mut j: usize = 0;
            while j < partitions.len()
                invariant
                    j <= partitions@.len(),
                    partition_views(r@) == before + partitions@.take(j as int).map_values(|p: i32| (name@, p)),
                decreases partitions@.len() - j,
            {
                let ghost r_before = r@;
                let n = name.clone();
                r.push((n, partitions[j]));
                proof {
                    assert(r@ =~= r_before.push((n, partitions@[j as int])));
                    assert(partition_views(r@) =~= partition_views(r_before).push((name@, partitions@[j as int])));
                    assert(partitions@.take(j + 1).map_values(|p: i32| (name@, p)) =~= partitions@.take(j as int).map_values(|p: i32| (name@, p)).push((name@, partitions@[j as int])));
                    assert(partition_views(r@) =~= before + partitions@.take(j + 1).map_values(|p: i32| (name@, p)));
                }
                j = j + 1;
            }
            proof {
                assert(partitions@.take(j as int) =~= partitions@);
            }
        }
        i = i + 1;
    }
    proof {
        assert(m.take(i as int) =~= m);
    }
    r
}

/// The entries of partitions that hold records (a high watermark above zero).
pub open spec fn with_records(s: Seq<WatermarkEntry>) -> Seq<WatermarkEntry> {
    s.filter(|e: WatermarkEntry| e.3 > 0)
}

/// The partitions kept are exactly those that hold records, in the order
/// they were fetched: every kept entry has a high watermark above zero and
/// is a fetched entry, every fetched entry with a high watermark above zero
/// is kept, and two kept entries come in the order of the fetched ones.
pub proof fn law_collected_partitions_hold_records(s: Seq<WatermarkEntry>)
    ensures
        forall|i: int| 0 <= i < with_records(s).len() ==> (#[trigger] with_records(s)[i]).3 > 0,
        forall|i: int| 0 <= i < s.len() && s[i].3 > 0 ==> #[trigger] with_records(s).contains(s[i]),
        forall|i: int|
            0 <= i < with_records(s).len() ==> exists|j: int| 0 <= j < s.len() && #[trigger] s[j] == #[trigger] with_records(s)[i],
        forall|i1: int, i2: int|
            0 <= i1 < i2 < with_records(s).len() ==> exists|j1: int, j2: int|
                0 <= j1 < j2 < s.len() && #[trigger] s[j1] == #[trigger] with_records(s)[i1] && #[trigger] s[j2]
                    == #[trigger] with_records(s)[i2],
    decreases s.len(),
{
    reveal_with_fuel(Seq::<_>::filter, 1);
    if s.len() > 0 {
        let t = s.drop_last();
        let e = s.last();
        law_collected_partitions_hold_records(t);
        let rt = with_records(t);
        let r = with_records(s);
        assert(r == if e.3 > 0 { rt.push(e) } else { rt });
        assert forall|i: int| 0 <= i < r.len() implies (#[trigger] r[i]).3 > 0 by {
            if i < rt.len() {
                assert(r[i] == rt[i]);
            }
        }
        assert forall|i: int| 0 <= i < s.len() && s[i].3 > 0 implies #[trigger] r.contains(s[i]) by {
            if i < t.len() {
                assert(t[i] == s[i]);
                assert(rt.contains(t[i]));
                let k = choose|k: int| 0 <= k < rt.len() && rt[k] == t[i];
                assert(r[k] == rt[k]);
            } else {
                assert(r[r.len() - 1] == e);
            }
        }
        assert forall|i: int| 0 <= i < r.len() implies exists|j: int| 0 <= j < s.len() && #[trigger] s[j] == #[trigger] r[i] by {
            if i < rt.len() {
                assert(r[i] == rt[i]);
                let j = choose|j: int| 0 <= j < t.len() && #[trigger] t[j] == #[trigger] rt[i];
                assert(s[j] == t[j]);
            } else {
                assert(s[s.len() - 1] == r[i]);
            }
        }
        assert forall|i1: int, i2: int| 0 <= i1 < i2 < r.len() implies exists|j1: int, j2: int|
            0 <= j1 < j2 < s.len() && #[trigger] s[j1] == #[trigger] r[i1] && #[trigger] s[j2] == #[trigger] r[i2] by {
            assert(r[i1] == rt[i1]);
            if i2 < rt.len() {
                assert(r[i2] == rt[i2]);
                let (j1, j2) = choose|j1: int, j2: int|
                    0 <= j1 < j2 < t.len() && #[trigger] t[j1] == #[trigger] rt[i1] && #[trigger] t[j2] == #[trigger] rt[i2];
                assert(s[j1] == t[j1] && s[j2] == t[j2]);
            } else {
                let j1 = choose|j: int| 0 <= j < t.len() && #[trigger] t[j] == #[trigger] rt[i1];
                assert(s[j1] == t[j1]);
                assert(s[s.len() - 1] == r[i2]);
            }
        }
    }
}

/// The watermarks of the fetched partitions that hold records (a high
/// watermark above zero), in order.
pub fn collect_watermarks(fetched: &Vec<(String, i32, i64, i64)>) -> (r: TopicPartitionWatermarks)
    ensures
        r@ == with_records(fetched@.map_values(|e: (String, i32, i64, i64)| (e.0@, e.1, e.2, e.3))),
        forall|i: int| 0 <= i < r@.len() ==> (#[trigger] r@[i]).3 > 0,
        forall|i: int|
            0 <= i < fetched@.len() && fetched@[i].3 > 0 ==> #[trigger] r@.contains(
                (fetched@[i].0@, fetched@[i].1, fetched@[i].2, fetched@[i].3),
            ),
        forall|t: Seq<char>, p: i32|
            #[trigger] watermark_of(r@, t, p) == watermark_of(
                with_records(fetched@.map_values(|e: (String, i32, i64, i64)| (e.0@, e.1, e.2, e.3))),
                t,
                p,
            ),
{
    let ghost f = fetched@.map_values(|e: (String, i32, i64, i64)| (e.0@, e.1, e.2, e.3));
    let mut r = TopicPartitionWatermarks { entries: Vec::new() };
    let mut i: usize = 0;
    proof {
        reveal_with_fuel(Seq::<_>::filter, 1);
        assert(f.take(0) =~= Seq::<WatermarkEntry>::empty());
        assert(r@ =~= Seq::<WatermarkEntry>::empty());
    }
    while i < fetched.len()
        invariant
            i <= fetched@.len(),
            f == fetched@.map_values(|e: (String, i32, i64, i64)| (e.0@, e.1, e.2, e.3)),
            r@ == with_records(f.take(i as int)),
        decreases fetched@.len() - i,
    {
        let e = &fetched[i];
        let ghost before = r@;
        let ghost before_entries = r.entries@;
        if e.3 > 0 {
            let n = e.0.clone();
            r.entries.push((n, e.1, e.2, e.3));
            proof {
                assert(r.entries@ =~= before_entries.push((n, e.1, e.2, e.3)));
            }
        }
        proof {
            reveal_with_fuel(Seq::<_>::filter, 1);
            assert(f[i as int] == (e.0@, e.1, e.2, e.3));

            assert(f.take(i + 1).drop_last() =~= f.take(i as int));
            assert(f.take(i + 1).last() == f[i as int]);
            if e.3 > 0 {
                assert(r@ =~= before.push(f[i as int]));
            } else {
                assert(r@ =~= before);
            }
        }
        i = i + 1;
    }
    proof {
        assert(f.take(i as int) =~= f);
        law_collected_partitions_hold_records(f);
        assert forall|j: int| 0 <= j < fetched@.len() && fetched@[j].3 > 0 implies #[trigger] r@.contains(
            (fetched@[j].0@, fetched@[j].1, fetched@[j].2, fetched@[j].3),
        ) by {
            assert(f[j] == (fetched@[j].0@, fetched@[j].1, fetched@[j].2, fetched@[j].3));
        }
    }
    r
}

} // verus!

//! The search for target offsets: the decisions taken on each message
//! consumed from the target cluster, from the first message to the final
//! mapping of every source offset.

use vstd::prelude::*;

use crate::calculate_new_offset::{new_offset_defined, new_offset_spec, CalculateOffsetInput};
use crate::errors::{ConsumerGroupRecord, FetchOffsetError, TransformationError};
use crate::message::{
    extract_source_offset_from_message_headers, header_offset_spec, header_result_ok,
    headers_view, ConsumedMessage, HeaderView,
};
use crate::record::{
    get_unique_topics_from_offset_snapshot, snapshot_has_topic, snapshot_view, OffsetRecord,
    OffsetRecordView, OffsetSnapshot,
};
use crate::text::{compare_str, join, join_strings, string_views, Cmp};
use crate::transform::{
    find_fold, group_record_views, handle_missing_offsets, resolve_missing,
    try_find_missing_offsets, GroupRecordView, NearestOffsets, SearchProgress, Transformations,
    TransformationView,
};
use crate::watermarks::{
    get_topic_partition_watermarks, no_watermark_message, partition_views,
    update_partitions_to_search, watermark_of, without_partition, TopicPartitionWatermarks,
};

verus! {

/// The state of the search for target offsets.
pub struct TargetOffsetSearch {
    /// The header that carries the source offset of a message.
    pub offset_header_key: String,
    /// The source offsets to map.
    pub source_offsets: OffsetSnapshot,
    /// The distinct topics of the source offsets.
    pub topics: Vec<String>,
    /// The watermarks of the target partitions.
    pub watermarks: TopicPartitionWatermarks,
    /// The target partitions not yet read to their end.
    pub partitions_to_search: Vec<(String, i32)>,
    /// The source offsets not yet mapped exactly.
    pub missing_offsets: Vec<ConsumerGroupRecord>,
    /// The nearest later source offset seen for missing ones.
    pub nearest_offsets: NearestOffsets,
    /// The mappings found.
    pub transformations: Transformations,
}

/// The source offset searched for in a partition: the offset of the first
/// missing record of that partition.
pub open spec fn search_offset(missing: Seq<GroupRecordView>, topic: Seq<char>, partition: i32) -> Option<i64>
    decreases missing.len(),
{
    if missing.len() == 0 {
        None
    } else if missing[0].1 == topic && missing[0].2 == partition {
        Some(missing[0].3)
    } else {
        search_offset(missing.drop_first(), topic, partition)
    }
}

pub open spec fn message_headers(m: ConsumedMessage) -> Option<Seq<HeaderView>> {
    match m.headers {
        Some(h) => Some(headers_view(h@)),
        None => None,
    }
}

pub open spec fn offset_input(m: ConsumedMessage, current: i64, target: i64, w: (i64, i64)) -> CalculateOffsetInput {
    CalculateOffsetInput {
        current_target: m.offset,
        current_source: current,
        target_source: target,
        high_water_mark: w.1,
        low_water_mark: w.0,
    }
}

impl TargetOffsetSearch {
    pub open spec fn progress(&self) -> SearchProgress {
        (self.transformations@, group_record_views(self.missing_offsets@), self.nearest_offsets@)
    }

    /// The partitions still to search after message `m`, given the
    /// partition's watermarks `w`.
    pub open spec fn partitions_after(&self, m: ConsumedMessage, w: (i64, i64)) -> Seq<(Seq<char>, i32)> {
        if w.1 == m.offset + 1 {
            without_partition(partition_views(self.partitions_to_search@), m.topic@, m.partition)
        } else {
            partition_views(self.partitions_to_search@)
        }
    }

    /// Whether processing message `m` stays within 64-bit integer arithmetic.
    pub open spec fn step_defined(&self, m: ConsumedMessage) -> bool {
        match search_offset(group_record_views(self.missing_offsets@), m.topic@, m.partition) {
            Some(target) => match message_headers(m) {
                Some(h) => match header_offset_spec(h, self.offset_header_key@) {
                    Some(current) => match watermark_of(self.watermarks@, m.topic@, m.partition) {
                        Some(w) => new_offset_defined(offset_input(m, current, target, w)),
                        None => true,
                    },
                    None => true,
                },
                None => true,
            },
            None => true,
        }
    }

    /// The fixed parts of the state.
    pub open spec fn same_setup(&self, other: &Self) -> bool {
        &&& self.offset_header_key@ == other.offset_header_key@
        &&& snapshot_view(self.source_offsets@) == snapshot_view(other.source_offsets@)
        &&& string_views(self.topics@) == string_views(other.topics@)
        &&& self.watermarks@ == other.watermarks@
    }

    /// Nothing but the fixed parts is kept: the state is unchanged.
    pub open spec fn unchanged_from(&self, other: &Self) -> bool {
        &&& self.same_setup(other)
        &&& self.progress() == other.progress()
        &&& partition_views(self.partitions_to_search@) == partition_views(other.partitions_to_search@)
    }

    /// Starts the search for the source offsets, over the target partitions
    /// that have watermarks. There must be at least one such partition.
    pub fn new(
        offset_header_key: &str,
        source_offsets: OffsetSnapshot,
        watermarks: TopicPartitionWatermarks,
    ) -> (r: Result<Self, TransformationError>)
        ensures
            match r {
                Ok(s) => {
                    &&& s.offset_header_key@ == offset_header_key@
                    &&& snapshot_view(s.source_offsets@) == snapshot_view(source_offsets@)
                    &&& s.watermarks@ == watermarks@
                    &&& string_views(s.topics@).no_duplicates()
                    &&& forall|t: Seq<char>| string_views(s.topics@).contains(t) <==> snapshot_has_topic(snapshot_view(source_offsets@), t)
                    &&& s.partitions_to_search@.len() == watermarks@.len() > 0
                    &&& forall|i: int| 0 <= i < watermarks@.len() ==> #[trigger] partition_views(s.partitions_to_search@)[i] == (watermarks@[i].0, watermarks@[i].1)
                    &&& group_record_views(s.missing_offsets@) == snapshot_view(source_offsets@).map_values(|o: OffsetRecordView| (o.consumer_group, o.topic, o.partition, o.offset))
                    &&& s.nearest_offsets@.len() == 0
                    &&& s.transformations@.len() == 0
                },
                Err(TransformationError::NoPartitionsToSearch(topics)) => {
                    &&& watermarks@.len() == 0
                    &&& string_views(topics@).no_duplicates()
                    &&& forall|t: Seq<char>| string_views(topics@).contains(t) <==> snapshot_has_topic(snapshot_view(source_offsets@), t)
                },
                Err(_) => false,
            },
    {
        let topics = get_unique_topics_from_offset_snapshot(&source_offsets);
        let partitions_to_search = watermarks.partitions();
        if partitions_to_search.len() == 0 {
            return Err(TransformationError::NoPartitionsToSearch(topics));
        }
        let ghost src = snapshot_view(source_offsets@);
        let mut missing_offsets: Vec<ConsumerGroupRecord> = Vec::new();
        let mut i: usize = 0;
        while i < source_offsets.len()
            invariant
                i <= source_offsets@.len(),
                src == snapshot_view(source_offsets@),
                group_record_views(missing_offsets@) == src.take(i as int).map_values(|o: OffsetRecordView| (o.consumer_group, o.topic, o.partition, o.offset)),
            decreases source_offsets@.len() - i,
        {
            let o = &source_offsets[i];
            let ghost before = group_record_views(missing_offsets@);
            missing_offsets.push((o.consumer_group.clone(), o.topic.clone(), o.partition, o.offset));
            proof {
                assert(src.take(i + 1) =~= src.take(i as int).push(o@));
                assert(group_record_views(missing_offsets@) =~= before.push((o@.consumer_group, o@.topic, o@.partition, o@.offset)));
            }
            i = i + 1;
        }
        proof {
            assert(src.take(i as int) =~= src);
        }
        let r = TargetOffsetSearch {
            offset_header_key: offset_header_key.to_owned(),
            source_offsets,
            topics,
            watermarks,
            partitions_to_search,
            missing_offsets,
            nearest_offsets: NearestOffsets::new(),
            transformations: Transformations::new(),
        };
        proof {
            assert forall|i: int| 0 <= i < r.watermarks@.len() implies #[trigger] partition_views(r.partitions_to_search@)[i] == (r.watermarks@[i].0, r.watermarks@[i].1) by {
                assert(partition_views(r.partitions_to_search@)[i] == (r.partitions_to_search@[i].0@, r.partitions_to_search@[i].1));
            }
        }
        Ok(r)
    }

    /// Whether every partition has been read to its end.
    pub fn is_done(&self) -> (r: bool)
        ensures
            r == (self.partitions_to_search@.len() == 0),
    {
        self.partitions_to_search.len() == 0
    }

    /// The topics searched, separated by commas.
    pub fn topic_selector(&self) -> (r: String)
        ensures
            r@ == join(string_views(self.topics@), ","@),
    {
        join_strings(&self.topics, ",")
    }

    fn find_search_offset(&self, topic: &str, partition: i32) -> (r: Option<i64>)
        ensures
            r == search_offset(group_record_views(self.missing_offsets@), topic@, partition),
    {
        let ghost m = group_record_views(self.missing_offsets@);
        let mut i: usize = 0;
        proof {
            assert(m.skip(0) =~= m);
        }
        while i < self.missing_offsets.len()
            invariant
                i <= self.missing_offsets@.len(),
                m == group_record_views(self.missing_offsets@),
                search_offset(m, topic@, partition) == search_offset(m.skip(i as int), topic@, partition),
            decreases self.missing_offsets@.len() - i,
        {
            let x = &self.missing_offsets[i];
            proof {
                assert(m.skip(i as int)[0] == x@);
                assert(m.skip(i as int).drop_first() =~= m.skip(i + 1));
            }
            if compare_str(x.1.as_str(), topic) == Cmp::Equal && x.2 == partition {
                return Some(x.3);
            }
            i = i + 1;
        }
        proof {
            assert(m.skip(i as int).len() == 0);
        }
        None
    }

    /// Whether processing message `m` stays within 64-bit integer arithmetic.
    pub fn can_process(&self, m: &ConsumedMessage) -> (r: bool)
        ensures
            r == self.step_defined(*m),
    {
        let target = match self.find_search_offset(m.topic.as_str(), m.partition) {
            Some(t) => t,
            None => {
                return true;
            },
        };
        let current = match extract_source_offset_from_message_headers(m.headers.as_ref(), self.offset_header_key.as_str()) {
            Ok(c) => c,
            Err(_) => {
                proof {
                    if let Some(h) = &m.headers {
                        assert(header_offset_spec(headers_view(h@), self.offset_header_key@) is None);
                    }
                }
                return true;
            },
        };
        let w = match self.watermarks.get(m.topic.as_str(), m.partition) {
            Some(w) => w,
            None => {
                return true;
            },
        };
        crate::calculate_new_offset::is_defined(&CalculateOffsetInput {
            current_target: m.offset,
            current_source: current,
            target_source: target,
            high_water_mark: w.1,
            low_water_mark: w.0,
        })
    }

    /// Processes one consumed message. Returns the offset to seek the
    /// message's partition to, if the search should jump.
    pub fn on_message(&mut self, m: &ConsumedMessage) -> (r: Result<Option<i64>, TransformationError>)
        requires
            old(self).step_defined(*m),
        ensures
            final(self).same_setup(old(self)),
            match search_offset(group_record_views(old(self).missing_offsets@), m.topic@, m.partition) {
                None => match watermark_of(old(self).watermarks@, m.topic@, m.partition) {
                    Some(w) => r == Ok::<Option<i64>, TransformationError>(None)
                        && final(self).progress() == old(self).progress()
                        && partition_views(final(self).partitions_to_search@) == old(self).partitions_after(*m, w),
                    None => (r matches Err(TransformationError::InvalidInput(msg)) && msg@ == no_watermark_message(m.topic@, m.partition))
                        && final(self).unchanged_from(old(self)),
                },
                Some(target) => match message_headers(*m) {
                    None => (r matches Err(TransformationError::FetchOffsetError(FetchOffsetError::NoHeadersInMessage)))
                        && final(self).unchanged_from(old(self)),
                    Some(h) => match header_offset_spec(h, old(self).offset_header_key@) {
                        None => (r matches Err(TransformationError::FetchOffsetError(e)) && header_result_ok(h, old(self).offset_header_key@, Err(e)))
                            && final(self).unchanged_from(old(self)),
                        Some(current) => match watermark_of(old(self).watermarks@, m.topic@, m.partition) {
                            None => (r matches Err(TransformationError::InvalidInput(msg)) && msg@ == no_watermark_message(m.topic@, m.partition))
                                && final(self).unchanged_from(old(self)),
                            Some(w) => {
                                &&& r == Ok::<Option<i64>, TransformationError>(match new_offset_spec(offset_input(*m, current, target, w)) {
                                    Some(v) => Some(v as i64),
                                    None => None,
                                })
                                &&& final(self).progress() == find_fold(old(self).progress(), snapshot_view(old(self).source_offsets@), m.topic@, m.partition, m.offset, current)
                                &&& partition_views(final(self).partitions_to_search@) == old(self).partitions_after(*m, w)
                            },
                        },
                    },
                },
            },
    {
        let target = self.find_search_offset(m.topic.as_str(), m.partition);
        let mut seek: Option<i64> = None;
        if let Some(target) = target {
            let current = match extract_source_offset_from_message_headers(m.headers.as_ref(), self.offset_header_key.as_str()) {
                Ok(c) => c,
                Err(e) => {
                    return Err(e);
                },
            };
            let w = get_topic_partition_watermarks(&self.watermarks, m.topic.as_str(), m.partition)?;
            seek = crate::calculate_new_offset::execute(CalculateOffsetInput {
                current_target: m.offset,
                current_source: current,
                target_source: target,
                high_water_mark: w.1,
                low_water_mark: w.0,
            });
            let _ = try_find_missing_offsets(
                m,
                current,
                &self.source_offsets,
                &mut self.transformations,
                &mut self.missing_offsets,
                &mut self.nearest_offsets,
            );
        }
        update_partitions_to_search(m, &self.watermarks, &mut self.partitions_to_search)?;
        Ok(seek)
    }

    /// Ends the search: source offsets never found exactly are mapped
    /// to their nearest later offset; the others are reported as missing.
    pub fn finish(self) -> (r: Result<Transformations, TransformationError>)
        ensures
            ({
                let (t, still) = resolve_missing(self.transformations@, group_record_views(self.missing_offsets@), self.nearest_offsets@);
                match r {
                    Ok(x) => still.len() == 0 && x@ == t,
                    Err(TransformationError::MissingOffsets(v)) => still.len() > 0 && group_record_views(v@) == still,
                    Err(_) => false,
                }
            }),
    {
        handle_missing_offsets(self.transformations, self.missing_offsets, self.nearest_offsets)
    }
}

} // verus!

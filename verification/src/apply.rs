//! The decision of which target offsets to commit, per consumer group.

use vstd::prelude::*;
use vstd::string::StringExecFns;

use crate::errors::{ApplicationRecord, KafkaError};
use crate::record::{
    filter_by_topics, filter_by_topics_spec, group_by_consumer, group_by_consumer_spec,
    grouped_view, snapshot_view, OffsetSnapshot,
};
use crate::text::string_views;

verus! {

/// Why target offsets could not be applied.
#[derive(Debug)]
pub enum ApplyOffsetsError {
    /// The Kafka client failed.
    KafkaError(KafkaError),
    /// Reading the input failed.
    IoError(String),
    /// After filtering by topics, there is no offset to apply.
    NoOffsetsToApply,
}

impl ApplyOffsetsError {
    /// The text of the error.
    pub fn message(&self) -> (r: String)
        ensures
            self is NoOffsetsToApply ==> r@ == "No offsets to apply (input is empty or no matching topics)"@,
    {
        match self {
            ApplyOffsetsError::KafkaError(e) => {
                let mut m = String::from_str("Kafka error occurred. Reason: ");
                m.append(e.message().as_str());
                m
            },
            ApplyOffsetsError::IoError(e) => {
                let mut m = String::from_str("IO error occurred. Reason: ");
                m.append(e.as_str());
                m
            },
            ApplyOffsetsError::NoOffsetsToApply => String::from_str(
                "No offsets to apply (input is empty or no matching topics)",
            ),
        }
    }
}

/// The commits to make for applying `snapshot` on `topics` (all topics when
/// none is given): the offsets of each consumer group, none in a dry run,
/// and an error when no offset is left after filtering.
pub fn offsets_to_commit(topics: &Vec<String>, snapshot: &OffsetSnapshot, dry_run: bool) -> (r: Result<
    Vec<(String, Vec<ApplicationRecord>)>,
    ApplyOffsetsError,
>)
    ensures
        ({
            let filtered = filter_by_topics_spec(snapshot_view(snapshot@), string_views(topics@));
            &&& r is Err <==> filtered.len() == 0
            &&& (r is Err ==> r->Err_0 is NoOffsetsToApply)
            &&& (r is Ok ==> grouped_view(r->Ok_0@) == if dry_run {
                Seq::empty()
            } else {
                group_by_consumer_spec(filtered)
            })
        }),
{
    let filtered = filter_by_topics(snapshot, topics);
    if filtered.len() == 0 {
        return Err(ApplyOffsetsError::NoOffsetsToApply);
    }
    if dry_run {
        let plan: Vec<(String, Vec<ApplicationRecord>)> = Vec::new();
        proof {
            assert(grouped_view(plan@) =~= Seq::empty());
        }
        Ok(plan)
    } else {
        Ok(group_by_consumer(&filtered))
    }
}

} // verus!

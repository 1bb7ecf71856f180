//! Errors of the offset calculation and of the Kafka client, held as plain
//! values.

use vstd::prelude::*;
use vstd::string::StringExecFns;

use crate::text::{decimal, format_i64};

verus! {

/// A source offset of a consumer group: (consumer group, topic, partition, offset).
pub type ConsumerGroupRecord = (String, String, i32, i64);

/// A mapped offset: (topic, partition, source offset, target offset).
pub type TransformationRecord = (String, i32, i64, i64);

/// An offset to commit: (topic, partition, offset).
pub type ApplicationRecord = (String, i32, i64);

/// Errors of the Kafka client. Errors reported by the client library are
/// kept as their messages.
#[derive(Debug, Clone)]
pub enum KafkaError {
    Generic(String),
    TopicNotFound(String),
    PartitionNotFound(String, i32),
    InvalidSeek,
    ReadError(String),
    ClientCreationError(String),
    MetadataFetchFailed(String),
    Unknown(String),
}

/// The text of a Kafka client error.
pub open spec fn kafka_error_text(e: KafkaError) -> Seq<char> {
    match e {
        KafkaError::Generic(m) => m@,
        KafkaError::TopicNotFound(t) => "topic `"@ + t@ + "` could not be found on the remote server"@,
        KafkaError::PartitionNotFound(t, p) => "partition `"@ + decimal(p as int) + "` of topic `"@ + t@
            + "` could not be found on the remote server"@,
        KafkaError::InvalidSeek => "detected invalid seek from rdkafka"@,
        KafkaError::ReadError(m) => "Kafka read error: "@ + m@,
        KafkaError::ClientCreationError(m) => "Kafka config error: "@ + m@,
        KafkaError::MetadataFetchFailed(m) => "Failed to fetch metadata: "@ + m@,
        KafkaError::Unknown(m) => "Unknown Kafka error: "@ + m@,
    }
}

fn concat2(a: &str, b: &str) -> (r: String)
    ensures
        r@ == a@ + b@,
{
    let mut r = a.to_owned();
    r.append(b);
    r
}

fn concat3(a: &str, b: &str, c: &str) -> (r: String)
    ensures
        r@ == a@ + b@ + c@,
{
    let mut r = a.to_owned();
    r.append(b);
    r.append(c);
    r
}

impl KafkaError {
    /// The text of the error.
    pub fn message(&self) -> (r: String)
        ensures
            r@ == kafka_error_text(*self),
    {
        match self {
            KafkaError::Generic(m) => m.as_str().to_owned(),
            KafkaError::TopicNotFound(t) => concat3("topic `", t.as_str(), "` could not be found on the remote server"),
            KafkaError::PartitionNotFound(t, p) => {
                let n = format_i64(*p as i64);
                let mut r = concat3("partition `", n.as_str(), "` of topic `");
                r.append(t.as_str());
                r.append("` could not be found on the remote server");
                r
            },
            KafkaError::InvalidSeek => String::from_str("detected invalid seek from rdkafka"),
            KafkaError::ReadError(m) => concat2("Kafka read error: ", m.as_str()),
            KafkaError::ClientCreationError(m) => concat2("Kafka config error: ", m.as_str()),
            KafkaError::MetadataFetchFailed(m) => concat2("Failed to fetch metadata: ", m.as_str()),
            KafkaError::Unknown(m) => concat2("Unknown Kafka error: ", m.as_str()),
        }
    }
}

/// Errors of reading the offsets topic.
#[derive(Debug)]
pub enum ReadOffsetsTopicError {
    /// The offsets topic does not exist or has no partitions.
    TopicNotFound(String),
    /// No record arrived from the offsets topic within the client timeout.
    ReadTimeout(String),
    /// The Kafka client failed.
    Kafka(KafkaError),
}

/// Why the source offset could not be read from a message.
#[derive(Debug)]
pub enum FetchOffsetError {
    NoHeadersInMessage,
    HeaderNotFound,
    ErrorParsingHeader(String),
}

/// Errors of the calculation of target offsets.
#[derive(Debug)]
pub enum TransformationError {
    InvalidInput(String),
    NoPartitionsToSearch(Vec<String>),
    FailedToReceiveMessages { message: String, topic_selector: String },
    MetadataFetchFailed(String),
    ConsumerInitializationFailed(String),
    SubscribingFailed { message: String, topic_selector: String },
    MissingOffsets(Vec<ConsumerGroupRecord>),
    FetchOffsetError(FetchOffsetError),
    Kafka(KafkaError),
}

} // verus!

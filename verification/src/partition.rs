//! Events and records of a partition stream: the metadata of consumed
//! messages, without their keys and payloads.

use vstd::prelude::*;

use crate::keyed::{
    distinct_keys, first_key_index, lemma_first_key_index, lemma_first_key_index_at,
    lemma_first_key_index_none, lemma_set_value, set_value, value_of,
};
use crate::errors::KafkaError;
use crate::text::{compare_str, Cmp};

verus! {

/// An event from a partition stream.
#[derive(Debug)]
pub enum PartitionEvent<M> {
    /// A new message has been received.
    Message(M),
    /// The partition has been seeked to a new offset.
    Seeked,
}

impl<M> PartitionEvent<M> {
    /// The message of a message event.
    pub fn as_message(&self) -> (r: Option<&M>)
        ensures
            match self {
                PartitionEvent::Message(m) => r == Some(m),
                PartitionEvent::Seeked => r is None,
            },
    {
        match self {
            PartitionEvent::Message(msg) => Some(msg),
            PartitionEvent::Seeked => None,
        }
    }
}

/// The metadata of a message from a partition.
pub trait Message {
    /// The partition of the message.
    spec fn partition_spec(&self) -> i32;

    /// The offset of the message.
    spec fn offset_spec(&self) -> i64;

    /// The timestamp of the message.
    spec fn timestamp_spec(&self) -> i64;

    /// The headers of the message that have a value.
    spec fn headers_spec(&self) -> Seq<HeaderView>;

    fn partition(&self) -> (r: i32)
        ensures
            r == self.partition_spec(),
    ;

    fn offset(&self) -> (r: i64)
        ensures
            r == self.offset_spec(),
    ;

    fn timestamp(&self) -> (r: i64)
        ensures
            r == self.timestamp_spec(),
    ;

    /// The headers with a value, by key.
    fn headers(&self) -> (r: Vec<(String, Vec<u8>)>)
        ensures
            header_views(r@) == self.headers_spec(),
    ;

    /// The value of the header `key`.
    fn header(&self, key: &str) -> (r: Option<Vec<u8>>)
        ensures
            match value_of(self.headers_spec(), key@) {
                Some(v) => r matches Some(x) && x@ == v,
                None => r is None,
            },
    ;
}

/// A header: (key, value).
pub type HeaderView = (Seq<char>, Seq<u8>);

pub open spec fn header_views(h: Seq<(String, Vec<u8>)>) -> Seq<HeaderView> {
    h.map_values(|e: (String, Vec<u8>)| (e.0@, e.1@))
}

/// The headers `h` with `pairs` set in turn, a later pair for a key
/// replacing an earlier value.
pub open spec fn extend_headers(h: Seq<HeaderView>, pairs: Seq<HeaderView>) -> Seq<HeaderView>
    decreases pairs.len(),
{
    if pairs.len() == 0 {
        h
    } else {
        set_value(extend_headers(h, pairs.drop_last()), pairs.last().0, pairs.last().1)
    }
}

/// A message's metadata: partition, offset, timestamp and headers with
/// distinct keys.
#[derive(Debug)]
pub struct PartitionRecord {
    partition: i32,
    offset: i64,
    timestamp: i64,
    headers: Vec<(String, Vec<u8>)>,
}

/// Mathematical value of a [`PartitionRecord`].
pub struct PartitionRecordView {
    pub partition: i32,
    pub offset: i64,
    pub timestamp: i64,
    pub headers: Seq<HeaderView>,
}

impl View for PartitionRecord {
    type V = PartitionRecordView;

    closed spec fn view(&self) -> PartitionRecordView {
        PartitionRecordView {
            partition: self.partition,
            offset: self.offset,
            timestamp: self.timestamp,
            headers: header_views(self.headers@),
        }
    }
}

fn copy_bytes(v: &Vec<u8>) -> (r: Vec<u8>)
    ensures
        r@ == v@,
{
    let mut r: Vec<u8> = Vec::new();
    let mut i: usize = 0;
    while i < v.len()
        invariant
            i <= v@.len(),
            r@ == v@.take(i as int),
        decreases v@.len() - i,
    {
        r.push(v[i]);
        proof {
            assert(v@.take(i + 1) =~= v@.take(i as int).push(v@[i as int]));
        }
        i = i + 1;
    }
    proof {
        assert(v@.take(i as int) =~= v@);
    }
    r
}

fn copy_headers(h: &Vec<(String, Vec<u8>)>) -> (r: Vec<(String, Vec<u8>)>)
    ensures
        header_views(r@) == header_views(h@),
{
    let mut r: Vec<(String, Vec<u8>)> = Vec::new();
    let mut i: usize = 0;
    while i < h.len()
        invariant
            i <= h@.len(),
            header_views(r@) == header_views(h@).take(i as int),
        decreases h@.len() - i,
    {
        let ghost before = header_views(r@);
        r.push((h[i].0.clone(), copy_bytes(&h[i].1)));
        proof {
            assert(header_views(r@) =~= before.push(header_views(h@)[i as int]));
            assert(header_views(h@).take(i + 1) =~= header_views(h@).take(i as int).push(
                header_views(h@)[i as int],
            ));
        }
        i = i + 1;
    }
    proof {
        assert(header_views(h@).take(i as int) =~= header_views(h@));
    }
    r
}

fn header_position(h: &Vec<(String, Vec<u8>)>, key: &str) -> (r: Option<usize>)
    ensures
        first_key_index(header_views(h@), key@) == match r {
            Some(i) => Some(i as int),
            None => None::<int>,
        },
        r matches Some(i) ==> i < h@.len(),
{
    let ghost s = header_views(h@);
    let mut i: usize = 0;
    while i < h.len()
        invariant
            i <= h@.len(),
            s == header_views(h@),
            forall|j: int| 0 <= j < i ==> #[trigger] s[j].0 != key@,
        decreases h@.len() - i,
    {
        if compare_str(h[i].0.as_str(), key) == Cmp::Equal {
            proof {
                lemma_first_key_index_at(s, key@, i as int);
            }
            return Some(i);
        }
        i = i + 1;
    }
    proof {
        lemma_first_key_index_none(s, key@);
    }
    None
}

fn set_header_value(h: &mut Vec<(String, Vec<u8>)>, key: String, value: Vec<u8>)
    ensures
        header_views(final(h)@) == set_value(header_views(old(h)@), key@, value@),
        distinct_keys(header_views(old(h)@)) ==> distinct_keys(header_views(final(h)@)),
{
    let ghost s = header_views(h@);
    proof {
        lemma_set_value(s, key@, value@);
    }
    let ghost kv = (key@, value@);
    match header_position(h, key.as_str()) {
        Some(i) => {
            h.set(i, (key, value));
            proof {
                assert(header_views(h@) =~= s.update(i as int, kv));
            }
        },
        None => {
            h.push((key, value));
            proof {
                assert(header_views(h@) =~= s.push(kv));
            }
        },
    }
}

impl PartitionRecord {
    /// The record of a message with the given metadata; its headers are
    /// `headers` set in turn, a later value for a key replacing an earlier one.
    pub fn from_parts(partition: i32, offset: i64, timestamp: i64, headers: &Vec<(String, Vec<u8>)>) -> (r: Self)
        ensures
            r@ == (PartitionRecordView {
                partition,
                offset,
                timestamp,
                headers: extend_headers(Seq::empty(), header_views(headers@)),
            }),
            distinct_keys(r@.headers),
    {
        let ghost p = header_views(headers@);
        let mut h: Vec<(String, Vec<u8>)> = Vec::new();
        let mut i: usize = 0;
        proof {
            assert(p.take(0) =~= Seq::<HeaderView>::empty());
            assert(header_views(h@) =~= Seq::<HeaderView>::empty());
        }
        while i < headers.len()
            invariant
                i <= headers@.len(),
                p == header_views(headers@),
                header_views(h@) == extend_headers(Seq::empty(), p.take(i as int)),
                distinct_keys(header_views(h@)),
            decreases headers@.len() - i,
        {
            proof {
                assert(p.take(i + 1).drop_last() =~= p.take(i as int));
                assert(p.take(i + 1).last() == p[i as int]);
            }
            set_header_value(&mut h, headers[i].0.clone(), copy_bytes(&headers[i].1));
            i = i + 1;
        }
        proof {
            assert(p.take(i as int) =~= p);
        }
        PartitionRecord { partition, offset, timestamp, headers: h }
    }

    /// The record of a message, read through its metadata.
    pub fn from_message<M: Message>(msg: &M) -> (r: Self)
        ensures
            r@ == (PartitionRecordView {
                partition: msg.partition_spec(),
                offset: msg.offset_spec(),
                timestamp: msg.timestamp_spec(),
                headers: extend_headers(Seq::empty(), msg.headers_spec()),
            }),
            distinct_keys(r@.headers),
    {
        let partition = msg.partition();
        let offset = msg.offset();
        let timestamp = msg.timestamp();
        let headers = msg.headers();
        PartitionRecord::from_parts(partition, offset, timestamp, &headers)
    }

    /// Sets the header `key` to `value`.
    pub fn set_header(&mut self, key: &str, value: Vec<u8>)
        ensures
            final(self)@ == (PartitionRecordView {
                headers: set_value(old(self)@.headers, key@, value@),
                ..old(self)@
            }),
            distinct_keys(old(self)@.headers) ==> distinct_keys(final(self)@.headers),
    {
        set_header_value(&mut self.headers, key.to_owned(), value);
    }

    pub fn set_timestamp(&mut self, timestamp: i64)
        ensures
            final(self)@ == (PartitionRecordView { timestamp, ..old(self)@ }),
    {
        self.timestamp = timestamp;
    }

    pub fn set_offset(&mut self, offset: i64)
        ensures
            final(self)@ == (PartitionRecordView { offset, ..old(self)@ }),
    {
        self.offset = offset;
    }

    pub fn set_partition(&mut self, partition: i32)
        ensures
            final(self)@ == (PartitionRecordView { partition, ..old(self)@ }),
    {
        self.partition = partition;
    }
}

impl Message for PartitionRecord {
    closed spec fn partition_spec(&self) -> i32 {
        self.partition
    }

    closed spec fn offset_spec(&self) -> i64 {
        self.offset
    }

    closed spec fn timestamp_spec(&self) -> i64 {
        self.timestamp
    }

    closed spec fn headers_spec(&self) -> Seq<HeaderView> {
        header_views(self.headers@)
    }

    fn partition(&self) -> (r: i32)
        ensures
            r == self@.partition,
    {
        self.partition
    }

    fn offset(&self) -> (r: i64)
        ensures
            r == self@.offset,
    {
        self.offset
    }

    fn timestamp(&self) -> (r: i64)
        ensures
            r == self@.timestamp,
    {
        self.timestamp
    }

    fn headers(&self) -> (r: Vec<(String, Vec<u8>)>)
        ensures
            header_views(r@) == self@.headers,
    {
        copy_headers(&self.headers)
    }

    fn header(&self, key: &str) -> (r: Option<Vec<u8>>)
        ensures
            match value_of(self@.headers, key@) {
                Some(v) => r matches Some(x) && x@ == v,
                None => r is None,
            },
    {
        match header_position(&self.headers, key) {
            Some(i) => {
                proof {
                    lemma_first_key_index(header_views(self.headers@), key@);
                }
                Some(copy_bytes(&self.headers[i].1))
            },
            None => None,
        }
    }
}

/// The partition that a stream consumer reads: a topic and a partition
/// number.
pub struct PartitionRecordStreamConsumer {
    topic: String,
    partition: i32,
}

impl PartitionRecordStreamConsumer {
    pub closed spec fn topic_view(&self) -> Seq<char> {
        self.topic@
    }

    pub closed spec fn partition_view(&self) -> i32 {
        self.partition
    }

    /// The consumer of a partition of a topic that the cluster reports as
    /// `found`: its name and number of partitions, `None` when the cluster
    /// reports no such topic. The consumer reads the topic under the name
    /// the cluster reports.
    pub fn for_partition(topic: String, partition: i32, found: Option<(String, usize)>) -> (r: Result<Self, KafkaError>)
        ensures
            match found {
                None => r matches Err(KafkaError::TopicNotFound(t)) && t@ == topic@,
                Some((name, n)) => if n == 0 {
                    r matches Err(KafkaError::PartitionNotFound(t, p)) && t@ == topic@ && p == partition
                } else {
                    r matches Ok(c) && c.topic_view() == name@ && c.partition_view() == partition
                },
            },
    {
        match found {
            None => Err(KafkaError::TopicNotFound(topic)),
            Some((name, n)) => if n == 0 {
                Err(KafkaError::PartitionNotFound(topic, partition))
            } else {
                Ok(PartitionRecordStreamConsumer { topic: name, partition })
            },
        }
    }

    pub fn topic(&self) -> (r: &String)
        ensures
            r@ == self.topic_view(),
    {
        &self.topic
    }

    pub fn partition(&self) -> (r: i32)
        ensures
            r == self.partition_view(),
    {
        self.partition
    }
}

} // verus!

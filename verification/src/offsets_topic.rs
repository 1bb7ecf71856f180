//! Decoding of the records of the internal `__consumer_offsets` topic (the
//! `OffsetCommitKey` and `OffsetCommitValue` wire format), and the
//! accumulation of the last committed offset per group, topic and partition.

use vstd::prelude::*;
use vstd::string::StringExecFns;
use vstd::utf8::*;

use crate::bytes::{
    be_i16, be_i32, be_i64, be_int, be_signed_bytes, lemma_be_signed_roundtrip, lemma_pow256_values,
};
use crate::record::{
    key_lt, lemma_key_order, lemma_records_map, lemma_sorted_unique, record_key, records_map,
    snapshot_view, sorted_records, unique_keys, OffsetKey, OffsetRecord, OffsetSnapshot,
};
use crate::errors::ReadOffsetsTopicError;
use crate::keyed::{
    distinct_keys, first_key_index, lemma_first_key_index, lemma_first_key_index_at,
    lemma_first_key_index_none, lemma_set_value, set_value, value_of,
};
use crate::text::{
    compare_str, contains_string, decimal, format_i64, format_u64, string_views, utf8_to_string, Cmp,
};

verus! {

/// A decoded key of a record on the `__consumer_offsets` topic.
#[derive(Debug, PartialEq, Eq)]
pub enum OffsetCommitKey {
    /// Key versions 0-1: a committed offset for a [group, topic, partition] combination.
    Offset { group: String, topic: String, partition: i32 },
    /// Key versions 2 and above carry group metadata instead of offsets.
    GroupMetadata,
}

/// Mathematical value of an [`OffsetCommitKey`].
pub enum CommitKeyView {
    Offset { group: Seq<char>, topic: Seq<char>, partition: i32 },
    GroupMetadata,
}

impl View for OffsetCommitKey {
    type V = CommitKeyView;

    open spec fn view(&self) -> CommitKeyView {
        match self {
            OffsetCommitKey::Offset { group, topic, partition } => CommitKeyView::Offset {
                group: group@,
                topic: topic@,
                partition: *partition,
            },
            OffsetCommitKey::GroupMetadata => CommitKeyView::GroupMetadata,
        }
    }
}

/// Why a key or value of the offsets topic could not be decoded.
#[derive(Debug, PartialEq, Eq, Structural, Clone, Copy)]
pub enum DecodeError {
    /// The data ended before the field that starts at this byte.
    UnexpectedEndOfData(usize),
    /// A string was announced with this (negative) length.
    InvalidStringLength(i16),
    /// A string was not valid UTF-8.
    InvalidUtf8,
    /// The record has this version, which is not supported.
    UnsupportedVersion(i16),
}

/// The text of a decoding error.
pub open spec fn decode_error_text(e: DecodeError) -> Seq<char> {
    match e {
        DecodeError::UnexpectedEndOfData(p) => "unexpected end of data at byte "@ + decimal(p as int),
        DecodeError::InvalidStringLength(l) => "invalid string length "@ + decimal(l as int),
        DecodeError::InvalidUtf8 => "string is not valid UTF-8"@,
        DecodeError::UnsupportedVersion(v) => "unsupported version "@ + decimal(v as int),
    }
}

impl DecodeError {
    /// The text of the error.
    pub fn message(&self) -> (r: String)
        ensures
            r@ == decode_error_text(*self),
    {
        match self {
            DecodeError::UnexpectedEndOfData(p) => {
                let mut r = String::from_str("unexpected end of data at byte ");
                r.append(format_u64(*p as u64).as_str());
                r
            },
            DecodeError::InvalidStringLength(l) => {
                let mut r = String::from_str("invalid string length ");
                r.append(format_i64(*l as i64).as_str());
                r
            },
            DecodeError::InvalidUtf8 => String::from_str("string is not valid UTF-8"),
            DecodeError::UnsupportedVersion(v) => {
                let mut r = String::from_str("unsupported version ");
                r.append(format_i64(*v as i64).as_str());
                r
            },
        }
    }
}

/// A fixed-width big-endian integer of `width` bytes at `pos`, and the
/// position after it.
pub open spec fn int_at(buf: Seq<u8>, pos: int, width: int) -> Result<(int, int), DecodeError> {
    if pos + width <= buf.len() {
        Ok((be_int(buf.subrange(pos, pos + width)), pos + width))
    } else {
        Err(DecodeError::UnexpectedEndOfData(pos as usize))
    }
}

/// A string at `pos` (a signed 16-bit length, then that many UTF-8 bytes),
/// and the position after it.
pub open spec fn string_at(buf: Seq<u8>, pos: int) -> Result<(Seq<char>, int), DecodeError> {
    match int_at(buf, pos, 2) {
        Err(e) => Err(e),
        Ok((len, start)) => if len < 0 {
            Err(DecodeError::InvalidStringLength(len as i16))
        } else if start + len > buf.len() {
            Err(DecodeError::UnexpectedEndOfData(start as usize))
        } else if !valid_utf8(buf.subrange(start, start + len)) {
            Err(DecodeError::InvalidUtf8)
        } else {
            Ok((decode_utf8(buf.subrange(start, start + len)), start + len))
        },
    }
}

/// The decoded key of an offsets-topic record.
pub open spec fn key_spec(buf: Seq<u8>) -> Result<CommitKeyView, DecodeError> {
    match int_at(buf, 0, 2) {
        Err(e) => Err(e),
        Ok((version, p0)) => if version == 0 || version == 1 {
            match string_at(buf, p0) {
                Err(e) => Err(e),
                Ok((group, p1)) => match string_at(buf, p1) {
                    Err(e) => Err(e),
                    Ok((topic, p2)) => match int_at(buf, p2, 4) {
                        Err(e) => Err(e),
                        Ok((partition, _)) => Ok(
                            CommitKeyView::Offset { group, topic, partition: partition as i32 },
                        ),
                    },
                },
            }
        } else if version >= 2 {
            Ok(CommitKeyView::GroupMetadata)
        } else {
            Err(DecodeError::UnsupportedVersion(version as i16))
        },
    }
}

/// The committed offset of an offsets-topic value: the 64-bit field right
/// after the version, for versions 0 to 4.
pub open spec fn value_spec(buf: Seq<u8>) -> Result<i64, DecodeError> {
    match int_at(buf, 0, 2) {
        Err(e) => Err(e),
        Ok((version, p0)) => if !(0 <= version <= 4) {
            Err(DecodeError::UnsupportedVersion(version as i16))
        } else {
            match int_at(buf, p0, 8) {
                Err(e) => Err(e),
                Ok((offset, _)) => Ok(offset as i64),
            }
        },
    }
}

/// Whether a decoding result agrees with its specification.
pub open spec fn key_result_matches(
    r: Result<OffsetCommitKey, DecodeError>,
    s: Result<CommitKeyView, DecodeError>,
) -> bool {
    match r {
        Ok(k) => s == Ok::<CommitKeyView, DecodeError>(k@),
        Err(e) => s == Err::<CommitKeyView, DecodeError>(e),
    }
}

struct Decoder<'a> {
    buf: &'a [u8],
    pos: usize,
}

impl<'a> Decoder<'a> {
    fn new(buf: &'a [u8]) -> (d: Self)
        ensures
            d.buf@ == buf@,
            d.pos == 0,
    {
        Decoder { buf, pos: 0 }
    }

    fn take(&mut self, len: usize) -> (r: Result<&'a [u8], DecodeError>)
        requires
            old(self).pos <= old(self).buf@.len(),
        ensures
            final(self).buf == old(self).buf,
            final(self).pos <= final(self).buf@.len(),
            match r {
                Ok(bytes) => {
                    &&& old(self).pos + len <= old(self).buf@.len()
                    &&& bytes@ == old(self).buf@.subrange(
                        old(self).pos as int,
                        old(self).pos + len,
                    )
                    &&& final(self).pos == old(self).pos + len
                },
                Err(e) => {
                    &&& old(self).pos + len > old(self).buf@.len()
                    &&& e == DecodeError::UnexpectedEndOfData(old(self).pos)
                    &&& final(self).pos == old(self).pos
                },
            },
    {
        let buf_len = self.buf.len();
        let end = match self.pos.checked_add(len) {
            Some(end) => end,
            None => {
                return Err(DecodeError::UnexpectedEndOfData(self.pos));
            },
        };
        if end > buf_len {
            return Err(DecodeError::UnexpectedEndOfData(self.pos));
        }
        let bytes = &self.buf[self.pos..end];
        self.pos = end;
        Ok(bytes)
    }

    fn read_i16(&mut self) -> (r: Result<i16, DecodeError>)
        requires
            old(self).pos <= old(self).buf@.len(),
        ensures
            final(self).buf == old(self).buf,
            final(self).pos <= final(self).buf@.len(),
            match int_at(old(self).buf@, old(self).pos as int, 2) {
                Ok((v, p)) => r == Ok::<i16, DecodeError>(v as i16) && v == r->Ok_0 as int
                    && final(self).pos == p,
                Err(e) => r == Err::<i16, DecodeError>(e),
            },
    {
        let bytes = self.take(2)?;
        Ok(be_i16(bytes))
    }

    fn read_i32(&mut self) -> (r: Result<i32, DecodeError>)
        requires
            old(self).pos <= old(self).buf@.len(),
        ensures
            final(self).buf == old(self).buf,
            final(self).pos <= final(self).buf@.len(),
            match int_at(old(self).buf@, old(self).pos as int, 4) {
                Ok((v, p)) => r == Ok::<i32, DecodeError>(v as i32) && v == r->Ok_0 as int
                    && final(self).pos == p,
                Err(e) => r == Err::<i32, DecodeError>(e),
            },
    {
        let bytes = self.take(4)?;
        Ok(be_i32(bytes))
    }

    fn read_i64(&mut self) -> (r: Result<i64, DecodeError>)
        requires
            old(self).pos <= old(self).buf@.len(),
        ensures
            final(self).buf == old(self).buf,
            final(self).pos <= final(self).buf@.len(),
            match int_at(old(self).buf@, old(self).pos as int, 8) {
                Ok((v, p)) => r == Ok::<i64, DecodeError>(v as i64) && v == r->Ok_0 as int
                    && final(self).pos == p,
                Err(e) => r == Err::<i64, DecodeError>(e),
            },
    {
        let bytes = self.take(8)?;
        Ok(be_i64(bytes))
    }

    fn read_string(&mut self) -> (r: Result<String, DecodeError>)
        requires
            old(self).pos <= old(self).buf@.len(),
        ensures
            final(self).buf == old(self).buf,
            final(self).pos <= final(self).buf@.len(),
            match string_at(old(self).buf@, old(self).pos as int) {
                Ok((s, p)) => r is Ok && r->Ok_0@ == s && final(self).pos == p,
                Err(e) => r == Err::<String, DecodeError>(e),
            },
    {
        let len = self.read_i16()?;
        if len < 0 {
            return Err(DecodeError::InvalidStringLength(len));
        }
        let bytes = self.take(len as usize)?;
        match utf8_to_string(bytes) {
            Ok(s) => Ok(s),
            Err(_) => Err(DecodeError::InvalidUtf8),
        }
    }
}

/// Decodes the key of a record on the `__consumer_offsets` topic.
pub fn decode_offset_commit_key(buf: &[u8]) -> (r: Result<OffsetCommitKey, DecodeError>)
    ensures
        key_result_matches(r, key_spec(buf@)),
{
    let mut decoder = Decoder::new(buf);
    let version = decoder.read_i16()?;
    if version == 0 || version == 1 {
        let group = decoder.read_string()?;
        let topic = decoder.read_string()?;
        let partition = decoder.read_i32()?;
        Ok(OffsetCommitKey::Offset { group, topic, partition })
    } else if version >= 2 {
        Ok(OffsetCommitKey::GroupMetadata)
    } else {
        Err(DecodeError::UnsupportedVersion(version))
    }
}

/// Decodes the committed offset from an `OffsetCommitValue`.
/// The offset is the first field after the version in all known versions (0-4).
pub fn decode_offset_commit_value(buf: &[u8]) -> (r: Result<i64, DecodeError>)
    ensures
        r == value_spec(buf@),
{
    let mut decoder = Decoder::new(buf);
    let version = decoder.read_i16()?;
    if !(0 <= version && version <= 4) {
        return Err(DecodeError::UnsupportedVersion(version));
    }
    decoder.read_i64()
}

/// The bytes behind an optional slice.
pub open spec fn opt_bytes(b: Option<&[u8]>) -> Option<Seq<u8>> {
    match b {
        Some(b) => Some(b@),
        None => None,
    }
}

/// What an [`OffsetAccumulator`] holds: the topics it keeps, and the last
/// committed offset per [consumer group, topic, partition].
pub struct AccumulatorView {
    pub topics: Seq<Seq<char>>,
    pub offsets: Map<OffsetKey, i64>,
}

/// Whether records of `topic` are kept: all are kept when no topic is given.
pub open spec fn keeps_topic(topics: Seq<Seq<char>>, topic: Seq<char>) -> bool {
    topics.len() == 0 || topics.contains(topic)
}

/// The offsets after one record of the offsets topic: a commit sets the
/// offset of its key, a tombstone (no value) removes the key, and records
/// without a key, with group metadata, of another topic, or that fail to
/// decode change nothing.
pub open spec fn apply_spec(
    topics: Seq<Seq<char>>,
    offsets: Map<OffsetKey, i64>,
    key: Option<Seq<u8>>,
    value: Option<Seq<u8>>,
) -> Map<OffsetKey, i64> {
    match key {
        None => offsets,
        Some(k) => match key_spec(k) {
            Ok(CommitKeyView::Offset { group, topic, partition }) => {
                if !keeps_topic(topics, topic) {
                    offsets
                } else {
                    match value {
                        None => offsets.remove((group, topic, partition)),
                        Some(v) => match value_spec(v) {
                            Ok(offset) => offsets.insert((group, topic, partition), offset),
                            Err(_) => offsets,
                        },
                    }
                }
            },
            _ => offsets,
        },
    }
}

/// Accumulates offset commit records, keeping only the last commit per
/// [group, topic, partition] key. A tombstone (null value) drops the key.
pub struct OffsetAccumulator {
    topics: Vec<String>,
    offsets: Vec<OffsetRecord>,
}

impl View for OffsetAccumulator {
    type V = AccumulatorView;

    closed spec fn view(&self) -> AccumulatorView {
        AccumulatorView {
            topics: string_views(self.topics@),
            offsets: records_map(snapshot_view(self.offsets@)),
        }
    }
}

/// Position of `k` among sorted records: every record before it has a
/// smaller key, and the record at it (if any) has a key no smaller.
spec fn is_position(s: Seq<crate::record::OffsetRecordView>, k: OffsetKey, i: int) -> bool {
    &&& 0 <= i <= s.len()
    &&& forall|j: int| 0 <= j < i ==> key_lt(#[trigger] record_key(s[j]), k)
    &&& i < s.len() ==> !key_lt(record_key(s[i]), k)
}

impl OffsetAccumulator {
    /// Well-formedness: records are kept in strictly increasing key order.
    pub closed spec fn wf(&self) -> bool {
        sorted_records(snapshot_view(self.offsets@))
    }

    /// Creates an accumulator that only keeps offsets for the given topics.
    /// If the list is empty, all topics are kept.
    pub fn new(topics: Vec<String>) -> (r: Self)
        ensures
            r.wf(),
            r@.topics == string_views(topics@),
            r@.offsets == Map::<OffsetKey, i64>::empty(),
    {
        let r = OffsetAccumulator { topics, offsets: Vec::new() };
        proof {
            assert(snapshot_view(r.offsets@) =~= Seq::empty());
        }
        r
    }

    fn compare_key(r: &OffsetRecord, group: &str, topic: &str, partition: i32) -> (c: Cmp)
        ensures
            (c == Cmp::Less) <==> key_lt(record_key(r@), (group@, topic@, partition)),
            (c == Cmp::Equal) <==> record_key(r@) == (group@, topic@, partition),
            (c == Cmp::Greater) <==> key_lt((group@, topic@, partition), record_key(r@)),
    {
        proof {
            lemma_key_order(record_key(r@), (group@, topic@, partition), record_key(r@));
        }
        match compare_str(r.consumer_group.as_str(), group) {
            Cmp::Equal => match compare_str(r.topic.as_str(), topic) {
                Cmp::Equal => if r.partition < partition {
                    Cmp::Less
                } else if r.partition == partition {
                    Cmp::Equal
                } else {
                    Cmp::Greater
                },
                c => c,
            },
            c => c,
        }
    }

    /// Finds where the key belongs, and whether a record with it exists.
    fn find(&self, group: &str, topic: &str, partition: i32) -> (r: (usize, bool))
        requires
            self.wf(),
        ensures
            is_position(snapshot_view(self.offsets@), (group@, topic@, partition), r.0 as int),
            r.1 <==> (r.0 < self.offsets@.len() && record_key(self.offsets@[r.0 as int]@) == (
            group@,
            topic@,
            partition,
            )),
            !r.1 && r.0 < self.offsets@.len() ==> key_lt(
                (group@, topic@, partition),
                record_key(self.offsets@[r.0 as int]@),
            ),
    {
        let ghost s = snapshot_view(self.offsets@);
        let mut i: usize = 0;
        while i < self.offsets.len()
            invariant
                s == snapshot_view(self.offsets@),
                i <= self.offsets@.len(),
                forall|j: int| 0 <= j < i ==> key_lt(#[trigger] record_key(s[j]), (group@, topic@, partition)),
            decreases self.offsets@.len() - i,
        {
            match Self::compare_key(&self.offsets[i], group, topic, partition) {
                Cmp::Less => {},
                Cmp::Equal => {
                    proof {
                        lemma_key_order(record_key(s[i as int]), (group@, topic@, partition), record_key(s[i as int]));
                    }
                    return (i, true);
                },
                Cmp::Greater => {
                    proof {
                        lemma_key_order(record_key(s[i as int]), (group@, topic@, partition), record_key(s[i as int]));
                    }
                    return (i, false);
                },
            }
            i = i + 1;
        }
        (i, false)
    }

    /// Applies a single record from the offsets topic.
    /// Group metadata records and records that fail to decode are skipped.
    pub fn apply(&mut self, key: Option<&[u8]>, value: Option<&[u8]>)
        requires
            old(self).wf(),
        ensures
            final(self).wf(),
            final(self)@.topics == old(self)@.topics,
            final(self)@.offsets == apply_spec(old(self)@.topics, old(self)@.offsets, opt_bytes(key), opt_bytes(value)),
    {
        let key = match key {
            Some(key) => key,
            None => {
                return;
            },
        };
        let (group, topic, partition) = match decode_offset_commit_key(key) {
            Ok(OffsetCommitKey::Offset { group, topic, partition }) => (group, topic, partition),
            Ok(OffsetCommitKey::GroupMetadata) => {
                return;
            },
            Err(_) => {
                return;
            },
        };
        if self.topics.len() > 0 && !contains_string(&self.topics, topic.as_str()) {
            return;
        }
        match value {
            None => {
                self.remove_key(&group, &topic, partition);
            },
            Some(value) => match decode_offset_commit_value(value) {
                Ok(offset) => {
                    self.insert_key(group, topic, partition, offset);
                },
                Err(_) => {},
            },
        }
    }

    fn remove_key(&mut self, group: &String, topic: &String, partition: i32)
        requires
            old(self).wf(),
        ensures
            final(self).wf(),
            final(self).topics == old(self).topics,
            final(self)@.offsets == old(self)@.offsets.remove((group@, topic@, partition)),
    {
        let ghost s = snapshot_view(self.offsets@);
        let ghost k = (group@, topic@, partition);
        let (i, found) = self.find(group.as_str(), topic.as_str(), partition);
        proof {
            lemma_sorted_unique(s);
            lemma_records_map(s);
        }
        if found {
            let _ = self.offsets.remove(i);
            proof {
                let t = snapshot_view(self.offsets@);
                assert(t =~= s.remove(i as int));
                assert(sorted_records(t)) by {
                    assert forall|a: int, b: int| 0 <= a < b < t.len() implies key_lt(#[trigger] record_key(t[a]), #[trigger] record_key(t[b])) by {
                        let a2 = if a < i { a } else { a + 1 };
                        let b2 = if b < i { b } else { b + 1 };
                        assert(t[a] == s[a2]);
                        assert(t[b] == s[b2]);
                        assert(key_lt(record_key(s[a2]), record_key(s[b2])));
                    }
                }
                lemma_sorted_unique(t);
                lemma_records_map(t);
                assert forall|k2: OffsetKey| #[trigger] records_map(t).contains_key(k2) <==> records_map(s).remove(k).contains_key(k2) by {
                    if records_map(t).contains_key(k2) {
                        let j = choose|j: int| 0 <= j < t.len() && record_key(t[j]) == k2;
                        let j2 = if j < i { j } else { j + 1 };
                        assert(t[j] == s[j2]);
                        assert(record_key(s[j2]) != record_key(s[i as int]));
                    }
                    if records_map(s).remove(k).contains_key(k2) {
                        let j = choose|j: int| 0 <= j < s.len() && record_key(s[j]) == k2;
                        assert(j != i);
                        let j2 = if j < i { j } else { j - 1 };
                        assert(t[j2] == s[j]);
                    }
                }
                assert forall|k2: OffsetKey| #[trigger] records_map(t).contains_key(k2) implies records_map(t)[k2] == records_map(s).remove(k)[k2] by {
                    let j = choose|j: int| 0 <= j < t.len() && record_key(t[j]) == k2;
                    let j2 = if j < i { j } else { j + 1 };
                    assert(t[j] == s[j2]);
                }
                assert(records_map(t) =~= records_map(s).remove(k));
            }
        } else {
            proof {
                assert(!records_map(s).contains_key(k)) by {
                    if records_map(s).contains_key(k) {
                        let j = choose|j: int| 0 <= j < s.len() && record_key(s[j]) == k;
                        lemma_key_order(record_key(s[j]), k, k);
                        if j < i {
                            assert(key_lt(record_key(s[j]), k));
                        } else if j > i {
                            assert(key_lt(record_key(s[i as int]), record_key(s[j])));
                            lemma_key_order(k, record_key(s[i as int]), record_key(s[j]));
                        }
                    }
                }
                assert(records_map(s).remove(k) =~= records_map(s));
            }
        }
    }

    /// Sets the offset of a key, whatever the topics kept.
    pub(crate) fn insert_key(&mut self, group: String, topic: String, partition: i32, offset: i64)
        requires
            old(self).wf(),
        ensures
            final(self).wf(),
            final(self)@.topics == old(self)@.topics,
            final(self)@.offsets == old(self)@.offsets.insert((group@, topic@, partition), offset),
    {
        let ghost s = snapshot_view(self.offsets@);
        let ghost k = (group@, topic@, partition);
        let (i, found) = self.find(group.as_str(), topic.as_str(), partition);
        let record = OffsetRecord { consumer_group: group, topic, partition, offset };
        proof {
            lemma_sorted_unique(s);
            lemma_records_map(s);
        }
        if found {
            self.offsets.set(i, record);
        } else {
            self.offsets.insert(i, record);
        }
        proof {
            let t = snapshot_view(self.offsets@);
            if found {
                assert(t =~= s.update(i as int, record@));
            } else {
                assert(t =~= s.insert(i as int, record@));
            }
            assert(record_key(t[i as int]) == k);
            assert(sorted_records(t)) by {
                assert forall|a: int, b: int| 0 <= a < b < t.len() implies key_lt(#[trigger] record_key(t[a]), #[trigger] record_key(t[b])) by {
                    let a2 = if found || a < i { a } else { a - 1 };
                    let b2 = if found || b < i { b } else { b - 1 };
                    if a == i {
                        assert(b2 >= i);
                        if found {
                            assert(key_lt(record_key(s[i as int]), record_key(s[b2])));
                        } else {
                            lemma_key_order(k, record_key(s[i as int]), record_key(s[b2]));
                            if b2 > i {
                                assert(key_lt(record_key(s[i as int]), record_key(s[b2])));
                            }
                        }
                    } else if b == i {
                        assert(a < i);
                        assert(t[a] == s[a]);
                    } else {
                        assert(t[a] == s[a2]);
                        assert(t[b] == s[b2]);
                        assert(a2 < b2);
                    }
                }
            }
            lemma_sorted_unique(t);
            lemma_records_map(t);
            let m = records_map(s).insert(k, offset);
            assert forall|k2: OffsetKey| #[trigger] records_map(t).contains_key(k2) <==> m.contains_key(k2) by {
                if records_map(t).contains_key(k2) {
                    let j = choose|j: int| 0 <= j < t.len() && record_key(t[j]) == k2;
                    if j != i {
                        let j2 = if found || j < i { j } else { j - 1 };
                        assert(t[j] == s[j2]);
                    }
                }
                if m.contains_key(k2) && k2 != k {
                    let j = choose|j: int| 0 <= j < s.len() && record_key(s[j]) == k2;
                    let j2 = if found || j < i { j } else { j + 1 };
                    if found {
                        assert(j != i);
                    }
                    assert(t[j2] == s[j]);
                }
            }
            assert forall|k2: OffsetKey| #[trigger] records_map(t).contains_key(k2) implies records_map(t)[k2] == m[k2] by {
                let j = choose|j: int| 0 <= j < t.len() && record_key(t[j]) == k2;
                if j != i {
                    let j2 = if found || j < i { j } else { j - 1 };
                    assert(t[j] == s[j2]);
                    if found {
                        assert(j2 != i);
                    }
                }
            }
            assert(records_map(t) =~= m);
        }
    }

    /// Returns the number of accumulated [group, topic, partition] keys.
    pub fn len(&self) -> (n: usize)
        requires
            self.wf(),
        ensures
            self@.offsets.dom().finite(),
            n == self@.offsets.len(),
    {
        proof {
            lemma_sorted_unique(snapshot_view(self.offsets@));
            lemma_records_map(snapshot_view(self.offsets@));
        }
        self.offsets.len()
    }

    /// Returns the accumulated offsets, ordered by consumer group, topic and partition.
    pub fn into_snapshot(self) -> (r: OffsetSnapshot)
        requires
            self.wf(),
        ensures
            sorted_records(snapshot_view(r@)),
            records_map(snapshot_view(r@)) == self@.offsets,
    {
        self.offsets
    }
}

/// A string as the offsets topic writes it: its UTF-8 length as a signed
/// 16-bit integer, then its UTF-8 bytes.
pub open spec fn encode_string(s: Seq<char>) -> Seq<u8> {
    be_signed_bytes(encode_utf8(s).len() as int, 2) + encode_utf8(s)
}

/// An `OffsetCommitKey` as the offsets topic writes it.
pub open spec fn encode_offset_commit_key(
    version: i16,
    group: Seq<char>,
    topic: Seq<char>,
    partition: i32,
) -> Seq<u8> {
    be_signed_bytes(version as int, 2) + encode_string(group) + encode_string(topic)
        + be_signed_bytes(partition as int, 4)
}

/// An `OffsetCommitValue` as the offsets topic writes it: version, offset,
/// then fields that decoding does not read.
pub open spec fn encode_offset_commit_value(version: i16, offset: i64, rest: Seq<u8>) -> Seq<u8> {
    be_signed_bytes(version as int, 2) + be_signed_bytes(offset as int, 8) + rest
}

proof fn lemma_string_at_encoded(buf: Seq<u8>, pos: int, s: Seq<char>)
    requires
        0 <= pos,
        encode_utf8(s).len() <= 0x7fff,
        pos + encode_string(s).len() <= buf.len(),
        buf.subrange(pos, pos + encode_string(s).len()) == encode_string(s),
    ensures
        encode_string(s).len() == 2 + encode_utf8(s).len(),
        string_at(buf, pos) == Ok::<(Seq<char>, int), DecodeError>(
            (s, pos + encode_string(s).len()),
        ),
{
    let bytes = encode_utf8(s);
    lemma_pow256_values();
    lemma_be_signed_roundtrip(bytes.len() as int, 2);
    let e = encode_string(s);
    assert(buf.subrange(pos, pos + 2) =~= e.subrange(0, 2));
    assert(e.subrange(0, 2) =~= be_signed_bytes(bytes.len() as int, 2));
    assert(buf.subrange(pos + 2, pos + 2 + bytes.len()) =~= e.subrange(2, e.len() as int));
    assert(e.subrange(2, e.len() as int) =~= bytes);
    vstd::utf8::encode_utf8_valid_utf8(s);
    vstd::utf8::encode_utf8_decode_utf8(s);
}

/// Decoding the key of an offset commit (key versions 0 and 1) gives back
/// its consumer group, topic and partition, whatever follows it.
pub proof fn law_offset_commit_key_roundtrip(
    version: i16,
    group: Seq<char>,
    topic: Seq<char>,
    partition: i32,
    rest: Seq<u8>,
)
    requires
        version == 0 || version == 1,
        encode_utf8(group).len() <= 0x7fff,
        encode_utf8(topic).len() <= 0x7fff,
    ensures
        key_spec(encode_offset_commit_key(version, group, topic, partition) + rest) == Ok::<
            CommitKeyView,
            DecodeError,
        >(CommitKeyView::Offset { group, topic, partition }),
{
    lemma_pow256_values();
    lemma_be_signed_roundtrip(version as int, 2);
    lemma_be_signed_roundtrip(partition as int, 4);
    let v = be_signed_bytes(version as int, 2);
    let g = encode_string(group);
    let t = encode_string(topic);
    let p = be_signed_bytes(partition as int, 4);
    let b = encode_offset_commit_key(version, group, topic, partition) + rest;
    assert(b =~= v + g + t + p + rest);
    assert(b.subrange(0, 2) =~= v);
    lemma_be_signed_roundtrip(encode_utf8(group).len() as int, 2);
    lemma_be_signed_roundtrip(encode_utf8(topic).len() as int, 2);
    let p1 = 2 + g.len();
    let p2 = p1 + t.len();
    assert(b.subrange(2, p1 as int) =~= g);
    lemma_string_at_encoded(b, 2, group);
    assert(b.subrange(p1 as int, p2 as int) =~= t);
    lemma_string_at_encoded(b, p1 as int, topic);
    assert(b.subrange(p2 as int, (p2 + 4) as int) =~= p);
}

/// Decoding an offset commit value (versions 0 to 4) gives back its
/// offset, whatever follows it.
pub proof fn law_offset_commit_value_roundtrip(version: i16, offset: i64, rest: Seq<u8>)
    requires
        0 <= version <= 4,
    ensures
        value_spec(encode_offset_commit_value(version, offset, rest)) == Ok::<i64, DecodeError>(
            offset,
        ),
{
    lemma_pow256_values();
    lemma_be_signed_roundtrip(version as int, 2);
    lemma_be_signed_roundtrip(offset as int, 8);
    let b = encode_offset_commit_value(version, offset, rest);
    assert(b.subrange(0, 2) =~= be_signed_bytes(version as int, 2));
    assert(b.subrange(2, 10) =~= be_signed_bytes(offset as int, 8));
}

/// Of two commits for the same key, the later one is kept.
pub proof fn law_last_commit_wins(
    topics: Seq<Seq<char>>,
    offsets: Map<OffsetKey, i64>,
    key: Seq<u8>,
    first: Seq<u8>,
    second: Seq<u8>,
    group: Seq<char>,
    topic: Seq<char>,
    partition: i32,
    offset: i64,
)
    requires
        key_spec(key) == Ok::<CommitKeyView, DecodeError>(
            CommitKeyView::Offset { group, topic, partition },
        ),
        keeps_topic(topics, topic),
        value_spec(first) is Ok,
        value_spec(second) == Ok::<i64, DecodeError>(offset),
    ensures
        apply_spec(
            topics,
            apply_spec(topics, offsets, Some(key), Some(first)),
            Some(key),
            Some(second),
        ) == offsets.insert((group, topic, partition), offset),
{
    assert(apply_spec(
        topics,
        apply_spec(topics, offsets, Some(key), Some(first)),
        Some(key),
        Some(second),
    ) =~= offsets.insert((group, topic, partition), offset));
}

/// A tombstone drops the key; a later commit for the key restores it.
pub proof fn law_tombstone_drops_key(
    topics: Seq<Seq<char>>,
    offsets: Map<OffsetKey, i64>,
    key: Seq<u8>,
    value: Seq<u8>,
    group: Seq<char>,
    topic: Seq<char>,
    partition: i32,
    offset: i64,
)
    requires
        key_spec(key) == Ok::<CommitKeyView, DecodeError>(
            CommitKeyView::Offset { group, topic, partition },
        ),
        keeps_topic(topics, topic),
        value_spec(value) == Ok::<i64, DecodeError>(offset),
    ensures
        !apply_spec(topics, offsets, Some(key), None).contains_key((group, topic, partition)),
        apply_spec(topics, apply_spec(topics, offsets, Some(key), None), Some(key), Some(value))
            == offsets.insert((group, topic, partition), offset),
{
    assert(apply_spec(topics, apply_spec(topics, offsets, Some(key), None), Some(key), Some(value))
        =~= offsets.insert((group, topic, partition), offset));
}

/// Records without a key, with group metadata, of a topic that is not
/// kept, or that fail to decode leave the offsets unchanged.
pub proof fn law_skipped_records_change_nothing(
    topics: Seq<Seq<char>>,
    offsets: Map<OffsetKey, i64>,
    key: Option<Seq<u8>>,
    value: Option<Seq<u8>>,
)
    requires
        match key {
            None => true,
            Some(k) => match key_spec(k) {
                Ok(CommitKeyView::Offset { topic, .. }) => !keeps_topic(topics, topic) || (
                value matches Some(v) && value_spec(v) is Err),
                _ => true,
            },
        },
    ensures
        apply_spec(topics, offsets, key, value) == offsets,
{
}

/// The partitions of the offsets topic, from the cluster metadata (each
/// topic with its partitions): those of the first topic with that name.
pub open spec fn offsets_topic_partitions(metadata: Seq<(Seq<char>, Seq<i32>)>, name: Seq<char>) -> Seq<i32> {
    match value_of(metadata, name) {
        Some(p) => p,
        None => Seq::empty(),
    }
}

/// The partitions of the offsets topic; an error when it has none.
pub fn partitions_of_offsets_topic(metadata: &Vec<(String, Vec<i32>)>, offsets_topic: &str) -> (r: Result<
    Vec<i32>,
    ReadOffsetsTopicError,
>)
    ensures
        ({
            let p = offsets_topic_partitions(
                metadata@.map_values(|x: (String, Vec<i32>)| (x.0@, x.1@)),
                offsets_topic@,
            );
            match r {
                Ok(v) => p.len() > 0 && v@ == p,
                Err(ReadOffsetsTopicError::TopicNotFound(t)) => p.len() == 0 && t@ == offsets_topic@,
                Err(_) => false,
            }
        }),
{
    let ghost m = metadata@.map_values(|x: (String, Vec<i32>)| (x.0@, x.1@));
    let mut i: usize = 0;
    while i < metadata.len()
        invariant
            i <= metadata@.len(),
            m == metadata@.map_values(|x: (String, Vec<i32>)| (x.0@, x.1@)),
            forall|j: int| 0 <= j < i ==> #[trigger] m[j].0 != offsets_topic@,
        decreases metadata@.len() - i,
    {
        if compare_str(metadata[i].0.as_str(), offsets_topic) == Cmp::Equal {
            proof {
                lemma_first_key_index_at(m, offsets_topic@, i as int);
            }
            if metadata[i].1.len() == 0 {
                return Err(ReadOffsetsTopicError::TopicNotFound(offsets_topic.to_owned()));
            }
            return Ok(metadata[i].1.clone());
        }
        i = i + 1;
    }
    proof {
        lemma_first_key_index_none(m, offsets_topic@);
    }
    Err(ReadOffsetsTopicError::TopicNotFound(offsets_topic.to_owned()))
}

/// The end offset to read to per partition: the high watermark of each
/// partition that holds records (low below high), the last one given for
/// a partition winning.
pub open spec fn end_offsets_spec(w: Seq<(i32, i64, i64)>) -> Seq<(i32, i64)>
    decreases w.len(),
{
    if w.len() == 0 {
        Seq::empty()
    } else {
        let rest = end_offsets_spec(w.drop_last());
        let (p, low, high) = w.last();
        if low < high {
            set_value(rest, p, high)
        } else {
            rest
        }
    }
}

/// The number of records between the watermarks of the partitions that
/// hold records: an upper bound of the records to read.
pub open spec fn total_span(w: Seq<(i32, i64, i64)>) -> int
    decreases w.len(),
{
    if w.len() == 0 {
        0
    } else {
        let (_, low, high) = w.last();
        total_span(w.drop_last()) + if low < high { high - low } else { 0 }
    }
}

/// Whether summing the spans stays within the counter's range.
pub open spec fn spans_fit(w: Seq<(i32, i64, i64)>) -> bool {
    forall|i: int| 0 <= i <= w.len() ==> #[trigger] total_span(w.take(i)) <= u64::MAX
}

/// Reading of the offsets topic up to the log-end offsets captured at start.
pub struct OffsetsTopicReader {
    accumulator: OffsetAccumulator,
    end_offsets: Vec<(i32, i64)>,
    remaining: Vec<i32>,
    read: u64,
    total: u64,
}

/// What an [`OffsetsTopicReader`] holds.
pub struct ReaderView {
    pub accumulator: AccumulatorView,
    pub end_offsets: Seq<(i32, i64)>,
    pub remaining: Set<i32>,
    pub read: u64,
    pub total: u64,
}

impl View for OffsetsTopicReader {
    type V = ReaderView;

    closed spec fn view(&self) -> ReaderView {
        ReaderView {
            accumulator: self.accumulator@,
            end_offsets: self.end_offsets@,
            remaining: self.remaining@.to_set(),
            read: self.read,
            total: self.total,
        }
    }
}

/// Whether a record at `offset` is the last to read of a partition that
/// ends at `end`.
pub open spec fn reaches_end(offset: i64, end: i64) -> bool {
    offset + 1 >= end
}

/// What reading the offsets topic delivers, in order: a record (its
/// partition, offset, key and value), or the end of a partition.
pub enum ReadEvent {
    Record { partition: i32, offset: i64, key: Option<Seq<u8>>, value: Option<Seq<u8>> },
    PartitionEof { partition: i32 },
}

/// The reader when it starts: nothing accumulated or read, every partition
/// that holds records still to read up to its high watermark.
pub open spec fn reader_start(w: Seq<(i32, i64, i64)>, topics: Seq<Seq<char>>) -> ReaderView {
    ReaderView {
        accumulator: AccumulatorView { topics, offsets: Map::empty() },
        end_offsets: end_offsets_spec(w),
        remaining: Set::new(|p: i32| value_of(end_offsets_spec(w), p) is Some),
        read: 0,
        total: total_span(w) as u64,
    }
}

/// The reader after one event: a partition end completes its partition; a
/// record is counted, and, if its partition is still to read, applied,
/// completing the partition when it is the one before the end offset.
pub open spec fn reader_step(v: ReaderView, e: ReadEvent) -> ReaderView {
    match e {
        ReadEvent::PartitionEof { partition } => ReaderView {
            remaining: v.remaining.remove(partition),
            ..v
        },
        ReadEvent::Record { partition, offset, key, value } => {
            let read = (v.read + 1) as u64;
            if v.remaining.contains(partition) {
                ReaderView {
                    accumulator: AccumulatorView {
                        topics: v.accumulator.topics,
                        offsets: apply_spec(v.accumulator.topics, v.accumulator.offsets, key, value),
                    },
                    remaining: if reaches_end(offset, value_of(v.end_offsets, partition)->Some_0) {
                        v.remaining.remove(partition)
                    } else {
                        v.remaining
                    },
                    read,
                    ..v
                }
            } else {
                ReaderView { read, ..v }
            }
        },
    }
}

/// The reader after the events, in order.
pub open spec fn reader_run(v: ReaderView, events: Seq<ReadEvent>) -> ReaderView
    decreases events.len(),
{
    if events.len() == 0 {
        v
    } else {
        reader_step(reader_run(v, events.drop_last()), events.last())
    }
}

/// The number of records among the events.
pub open spec fn record_count(events: Seq<ReadEvent>) -> nat
    decreases events.len(),
{
    if events.len() == 0 {
        0
    } else {
        record_count(events.drop_last()) + if events.last() is Record { 1nat } else { 0nat }
    }
}

/// The keys and values of the records among the events, in order.
pub open spec fn record_payloads(events: Seq<ReadEvent>) -> Seq<(Option<Seq<u8>>, Option<Seq<u8>>)>
    decreases events.len(),
{
    if events.len() == 0 {
        Seq::empty()
    } else {
        let rest = record_payloads(events.drop_last());
        match events.last() {
            ReadEvent::Record { key, value, .. } => rest.push((key, value)),
            ReadEvent::PartitionEof { .. } => rest,
        }
    }
}

/// The offsets after applying the records (key, value) in order.
pub open spec fn apply_records(
    topics: Seq<Seq<char>>,
    offsets: Map<OffsetKey, i64>,
    records: Seq<(Option<Seq<u8>>, Option<Seq<u8>>)>,
) -> Map<OffsetKey, i64>
    decreases records.len(),
{
    if records.len() == 0 {
        offsets
    } else {
        apply_spec(
            topics,
            apply_records(topics, offsets, records.drop_last()),
            records.last().0,
            records.last().1,
        )
    }
}

/// Whether the event completes partition `q`: its end, or its record before
/// the end offset.
pub open spec fn ends_partition(e: ReadEvent, q: i32, end_offsets: Seq<(i32, i64)>) -> bool {
    match e {
        ReadEvent::PartitionEof { partition } => partition == q,
        ReadEvent::Record { partition, offset, .. } => partition == q && reaches_end(
            offset,
            value_of(end_offsets, partition)->Some_0,
        ),
    }
}

/// Whether one of the events completes partition `q`.
pub open spec fn ended_in(events: Seq<ReadEvent>, q: i32, end_offsets: Seq<(i32, i64)>) -> bool
    decreases events.len(),
{
    events.len() > 0 && (ended_in(events.drop_last(), q, end_offsets) || ends_partition(
        events.last(),
        q,
        end_offsets,
    ))
}

/// Whether every record comes for a partition of the start that no earlier
/// event completed.
pub open spec fn delivered_in_time(v: ReaderView, events: Seq<ReadEvent>) -> bool
    decreases events.len(),
{
    events.len() == 0 || {
        let before = events.drop_last();
        &&& delivered_in_time(v, before)
        &&& match events.last() {
            ReadEvent::Record { partition, .. } => v.remaining.contains(partition) && !ended_in(
                before,
                partition,
                v.end_offsets,
            ),
            ReadEvent::PartitionEof { .. } => true,
        }
    }
}

impl OffsetsTopicReader {
    pub closed spec fn wf(&self) -> bool {
        &&& self.accumulator.wf()
        &&& forall|p: i32| self.remaining@.contains(p) ==> #[trigger] value_of(self.end_offsets@, p) is Some
    }

    /// Checks that the total span of the partitions fits the counter.
    pub fn spans_fit(watermarks: &Vec<(i32, i64, i64)>) -> (r: bool)
        ensures
            r == spans_fit(watermarks@),
    {
        let ghost w = watermarks@;
        let mut total: u64 = 0;
        let mut i: usize = 0;
        proof {
            assert(w.take(0) =~= Seq::<(i32, i64, i64)>::empty());
        }
        while i < watermarks.len()
            invariant
                i <= w.len(),
                w == watermarks@,
                total == total_span(w.take(i as int)),
                forall|j: int| 0 <= j <= i ==> #[trigger] total_span(w.take(j)) <= u64::MAX,
            decreases w.len() - i,
        {
            let (_, low, high) = watermarks[i];
            proof {
                assert(w.take(i + 1).drop_last() =~= w.take(i as int));
                assert(w.take(i + 1).last() == w[i as int]);
            }
            if low < high {
                let span = (high as i128 - low as i128) as u128;
                if total as u128 + span > u64::MAX as u128 {
                    proof {
                        assert(total_span(w.take(i + 1)) > u64::MAX);
                    }
                    return false;
                }
                total = (total as u128 + span) as u64;
            }
            i = i + 1;
        }
        proof {
            assert(w.take(i as int) =~= w);
            assert forall|j: int| 0 <= j <= w.len() implies #[trigger] total_span(w.take(j)) <= u64::MAX by {
                assert(w.take(j) == w.take(i as int).take(j));
            }
        }
        true
    }

    /// Starts reading with the watermarks (partition, low, high) of the
    /// partitions of the offsets topic, keeping offsets of `topics` (all
    /// topics when empty).
    pub fn new(watermarks: &Vec<(i32, i64, i64)>, topics: Vec<String>) -> (r: Self)
        requires
            spans_fit(watermarks@),
        ensures
            r.wf(),
            r@.accumulator.topics == string_views(topics@),
            r@.accumulator.offsets == Map::<OffsetKey, i64>::empty(),
            r@.end_offsets == end_offsets_spec(watermarks@),
            distinct_keys(r@.end_offsets),
            forall|p: i32| r@.remaining.contains(p) <==> value_of(r@.end_offsets, p) is Some,
            r@.read == 0,
            r@.total == total_span(watermarks@),
            r@ == reader_start(watermarks@, string_views(topics@)),
    {
        let ghost w = watermarks@;
        let mut end_offsets: Vec<(i32, i64)> = Vec::new();
        let mut total: u64 = 0;
        let mut i: usize = 0;
        proof {
            assert(w.take(0) =~= Seq::<(i32, i64, i64)>::empty());
        }
        while i < watermarks.len()
            invariant
                i <= w.len(),
                w == watermarks@,
                spans_fit(w),
                end_offsets@ == end_offsets_spec(w.take(i as int)),
                distinct_keys(end_offsets@),
                total == total_span(w.take(i as int)),
            decreases w.len() - i,
        {
            let (partition, low, high) = watermarks[i];
            proof {
                assert(w.take(i + 1).drop_last() =~= w.take(i as int));
                assert(w.take(i + 1).last() == w[i as int]);
                assert(total_span(w.take(i + 1)) <= u64::MAX);
            }
            if low < high {
                let span = (high as i128 - low as i128) as u64;
                total = total + span;
                set_end_offset(&mut end_offsets, partition, high);
            }
            i = i + 1;
        }
        proof {
            assert(w.take(i as int) =~= w);
        }
        let mut remaining: Vec<i32> = Vec::new();
        let mut j: usize = 0;
        while j < end_offsets.len()
            invariant
                j <= end_offsets@.len(),
                remaining@ == end_offsets@.take(j as int).map_values(|e: (i32, i64)| e.0),
            decreases end_offsets@.len() - j,
        {
            remaining.push(end_offsets[j].0);
            proof {
                assert(end_offsets@.take(j + 1).map_values(|e: (i32, i64)| e.0) =~= end_offsets@.take(j as int).map_values(|e: (i32, i64)| e.0).push(end_offsets@[j as int].0));
            }
            j = j + 1;
        }
        proof {
            assert(end_offsets@.take(j as int) =~= end_offsets@);
            assert forall|p: i32| remaining@.to_set().contains(p) <==> value_of(end_offsets@, p) is Some by {
                lemma_first_key_index(end_offsets@, p);
                if remaining@.to_set().contains(p) {
                    assert(remaining@.contains(p));
                    let k = choose|k: int| 0 <= k < remaining@.len() && remaining@[k] == p;
                    assert(end_offsets@[k].0 == p);
                }
                if value_of(end_offsets@, p) is Some {
                    let k = first_key_index(end_offsets@, p)->Some_0;
                    assert(remaining@[k] == p);
                    assert(remaining@.contains(p));
                }
            }
        }
        let r = OffsetsTopicReader {
            accumulator: OffsetAccumulator::new(topics),
            end_offsets,
            remaining,
            read: 0,
            total,
        };
        proof {
            assert forall|p: i32| r.remaining@.contains(p) implies #[trigger] value_of(r.end_offsets@, p) is Some by {
                assert(r.remaining@.to_set().contains(p));
            }
            assert(r@.remaining =~= Set::new(|p: i32| value_of(end_offsets_spec(w), p) is Some));
        }
        r
    }

    /// Whether every partition has been read to its end.
    pub fn is_done(&self) -> (r: bool)
        ensures
            r == (self@.remaining == Set::<i32>::empty()),
    {
        proof {
            if self.remaining@.len() > 0 {
                assert(self@.remaining.contains(self.remaining@[0]));
            }
            if self.remaining@.len() == 0 {
                assert(self@.remaining =~= Set::<i32>::empty());
            }
        }
        self.remaining.len() == 0
    }

    /// The number of records read so far.
    pub fn read(&self) -> (r: u64)
        ensures
            r == self@.read,
    {
        self.read
    }

    /// The upper bound of the number of records to read.
    pub fn total(&self) -> (r: u64)
        ensures
            r == self@.total,
    {
        self.total
    }

    /// The partitions still to read.
    pub fn remaining(&self) -> (r: Vec<i32>)
        ensures
            r@.to_set() == self@.remaining,
    {
        self.remaining.clone()
    }

    fn remove_partition(&mut self, partition: i32)
        requires
            old(self).wf(),
        ensures
            final(self).wf(),
            final(self)@ == (ReaderView { remaining: old(self)@.remaining.remove(partition), ..old(self)@ }),
    {
        let ghost before = self.remaining@;
        let mut kept: Vec<i32> = Vec::new();
        let mut i: usize = 0;
        while i < self.remaining.len()
            invariant
                i <= self.remaining@.len(),
                self.remaining@ == before,
                forall|q: i32| kept@.contains(q) <==> (before.take(i as int).contains(q) && q != partition),
            decreases self.remaining@.len() - i,
        {
            let q = self.remaining[i];
            let ghost k0 = kept@;
            proof {
                assert(before.take(i + 1) =~= before.take(i as int).push(q));
                lemma_contains_push(before.take(i as int), q);
            }
            if q != partition {
                kept.push(q);
                proof {
                    lemma_contains_push(k0, q);
                }
            }
            i = i + 1;
        }
        proof {
            assert(before.take(i as int) =~= before);
            assert(kept@.to_set() =~= before.to_set().remove(partition));
        }
        self.remaining = kept;
    }

    /// A partition reported its end: it is done.
    pub fn on_partition_eof(&mut self, partition: i32)
        requires
            old(self).wf(),
        ensures
            final(self).wf(),
            final(self)@ == (ReaderView { remaining: old(self)@.remaining.remove(partition), ..old(self)@ }),
            final(self)@ == reader_step(old(self)@, ReadEvent::PartitionEof { partition }),
    {
        self.remove_partition(partition);
    }

    /// A record arrived: it is counted, and applied if its partition is not
    /// done yet; the partition is done once the record before its end
    /// offset arrived.
    pub fn on_record(&mut self, partition: i32, offset: i64, key: Option<&[u8]>, value: Option<&[u8]>)
        requires
            old(self).wf(),
            old(self)@.read < u64::MAX,
        ensures
            final(self).wf(),
            final(self)@.read == old(self)@.read + 1,
            final(self)@.total == old(self)@.total,
            final(self)@.end_offsets == old(self)@.end_offsets,
            final(self)@.accumulator.topics == old(self)@.accumulator.topics,
            if old(self)@.remaining.contains(partition) {
                &&& final(self)@.accumulator.offsets == apply_spec(old(self)@.accumulator.topics, old(self)@.accumulator.offsets, opt_bytes(key), opt_bytes(value))
                &&& final(self)@.remaining == if reaches_end(offset, value_of(old(self)@.end_offsets, partition)->Some_0) {
                    old(self)@.remaining.remove(partition)
                } else {
                    old(self)@.remaining
                }
            } else {
                &&& final(self)@.accumulator.offsets == old(self)@.accumulator.offsets
                &&& final(self)@.remaining == old(self)@.remaining
            },
            final(self)@ == reader_step(
                old(self)@,
                ReadEvent::Record { partition, offset, key: opt_bytes(key), value: opt_bytes(value) },
            ),
    {
        self.read = self.read + 1;
        let mut found = false;
        let mut i: usize = 0;
        while i < self.remaining.len()
            invariant
                i <= self.remaining@.len(),
                found <==> self.remaining@.take(i as int).contains(partition),
            decreases self.remaining@.len() - i,
        {
            proof {
                assert(self.remaining@.take(i + 1) =~= self.remaining@.take(i as int).push(self.remaining@[i as int]));
                lemma_contains_push(self.remaining@.take(i as int), self.remaining@[i as int]);
            }
            if self.remaining[i] == partition {
                found = true;
            }
            i = i + 1;
        }
        proof {
            assert(self.remaining@.take(i as int) =~= self.remaining@);
        }
        if !found {
            return;
        }
        self.accumulator.apply(key, value);
        let end = match find_end_offset(&self.end_offsets, partition) {
            Some(e) => e,
            None => {
                return;
            },
        };
        if offset as i128 >= end as i128 - 1 {
            self.remove_partition(partition);
        }
    }

    /// The accumulated offsets, ordered by consumer group, topic and partition.
    pub fn into_snapshot(self) -> (r: OffsetSnapshot)
        requires
            self.wf(),
        ensures
            sorted_records(snapshot_view(r@)),
            records_map(snapshot_view(r@)) == self@.accumulator.offsets,
    {
        self.accumulator.into_snapshot()
    }
}

/// A run of events, from any reader state, in which every record comes for
/// a partition still to read: the topics, end offsets and total stay, each
/// record is counted and applied in order, and the partitions left are
/// those that no event completed.
proof fn lemma_reader_run(v: ReaderView, events: Seq<ReadEvent>)
    requires
        delivered_in_time(v, events),
        v.read + record_count(events) <= u64::MAX,
    ensures
        reader_run(v, events).accumulator.topics == v.accumulator.topics,
        reader_run(v, events).end_offsets == v.end_offsets,
        reader_run(v, events).total == v.total,
        reader_run(v, events).read == v.read + record_count(events),
        reader_run(v, events).accumulator.offsets == apply_records(
            v.accumulator.topics,
            v.accumulator.offsets,
            record_payloads(events),
        ),
        forall|q: i32| #[trigger]
            reader_run(v, events).remaining.contains(q) <==> (v.remaining.contains(q) && !ended_in(
                events,
                q,
                v.end_offsets,
            )),
    decreases events.len(),
{
    if events.len() > 0 {
        let before = events.drop_last();
        lemma_reader_run(v, before);
        let prev = reader_run(v, before);
        match events.last() {
            ReadEvent::Record { partition, offset, key, value } => {
                assert(record_payloads(events).drop_last() =~= record_payloads(before));
                assert(prev.remaining.contains(partition));
            },
            ReadEvent::PartitionEof { partition } => {},
        }
    }
}

proof fn lemma_total_span_nonnegative(w: Seq<(i32, i64, i64)>)
    ensures
        total_span(w) >= 0,
    decreases w.len(),
{
    if w.len() > 0 {
        lemma_total_span_nonnegative(w.drop_last());
    }
}

proof fn lemma_run_prefix(v: ReaderView, events: Seq<ReadEvent>, k: int)
    requires
        0 <= k <= events.len(),
        delivered_in_time(v, events),
    ensures
        delivered_in_time(v, events.take(k)),
        record_count(events.take(k)) <= record_count(events),
    decreases events.len(),
{
    if k == events.len() {
        assert(events.take(k) =~= events);
    } else {
        assert(events.take(k) =~= events.drop_last().take(k));
        lemma_run_prefix(v, events.drop_last(), k);
    }
}

/// Reading the offsets topic to its end. Started with the watermarks of the
/// topic's partitions and the topics to keep, and fed what the consumer
/// delivers (records and partition ends) in order, where no record comes
/// for a partition without records or one already completed: the offsets
/// held are those that applying each record's key and value in delivery
/// order gives from none; after each event, the count of records read is
/// the number of records so far, so progress runs 1, 2, .. up to the
/// records delivered; the bound stays the total span of the watermarks;
/// and the partitions left to read are those that no partition end and no
/// record before the end offset completed.
pub proof fn law_reading_the_offsets_topic(
    watermarks: Seq<(i32, i64, i64)>,
    topics: Seq<Seq<char>>,
    events: Seq<ReadEvent>,
)
    requires
        spans_fit(watermarks),
        record_count(events) <= u64::MAX,
        delivered_in_time(reader_start(watermarks, topics), events),
    ensures
        reader_run(reader_start(watermarks, topics), events).accumulator.offsets == apply_records(
            topics,
            Map::empty(),
            record_payloads(events),
        ),
        forall|k: int|
            0 <= k <= events.len() ==> #[trigger] reader_run(
                reader_start(watermarks, topics),
                events.take(k),
            ).read == record_count(events.take(k)),
        reader_run(reader_start(watermarks, topics), events).total == total_span(watermarks),
        forall|q: i32| #[trigger]
            reader_run(reader_start(watermarks, topics), events).remaining.contains(q) <==> (value_of(
                end_offsets_spec(watermarks),
                q,
            ) is Some && !ended_in(events, q, end_offsets_spec(watermarks))),
{
    let start = reader_start(watermarks, topics);
    lemma_total_span_nonnegative(watermarks);
    assert(total_span(watermarks.take(watermarks.len() as int)) <= u64::MAX);
    assert(watermarks.take(watermarks.len() as int) =~= watermarks);
    lemma_reader_run(start, events);
    assert forall|k: int| 0 <= k <= events.len() implies #[trigger] reader_run(start, events.take(k)).read
        == record_count(events.take(k)) by {
        lemma_run_prefix(start, events, k);
        lemma_reader_run(start, events.take(k));
    }
}

/// What the consumer of the offsets topic delivered: a record (its
/// partition, offset, key and value), or the end of a partition.
pub enum Delivery {
    Record { partition: i32, offset: i64, key: Option<Vec<u8>>, value: Option<Vec<u8>> },
    PartitionEof { partition: i32 },
}

/// The bytes of an optional byte vector.
pub open spec fn opt_vec_bytes(b: Option<Vec<u8>>) -> Option<Seq<u8>> {
    match b {
        Some(v) => Some(v@),
        None => None,
    }
}

/// The event a delivery stands for.
pub open spec fn delivery_event(d: Delivery) -> ReadEvent {
    match d {
        Delivery::Record { partition, offset, key, value } => ReadEvent::Record {
            partition,
            offset,
            key: opt_vec_bytes(key),
            value: opt_vec_bytes(value),
        },
        Delivery::PartitionEof { partition } => ReadEvent::PartitionEof { partition },
    }
}

pub open spec fn delivery_events(s: Seq<Delivery>) -> Seq<ReadEvent> {
    s.map_values(|d: Delivery| delivery_event(d))
}

fn opt_slice(b: &Option<Vec<u8>>) -> (r: Option<&[u8]>)
    ensures
        opt_bytes(r) == opt_vec_bytes(*b),
{
    match b {
        Some(v) => Some(v.as_slice()),
        None => None,
    }
}

/// Reads the offsets topic from what its consumer delivered, in order,
/// starting with the watermarks (partition, low, high) of its partitions
/// and keeping offsets of `topics` (all topics when empty). Gives the
/// snapshot of the offsets, the progress (records read, upper bound)
/// reported after each record, and whether every partition was read to
/// its end. When no record comes for a partition without records or one
/// already completed, the offsets are those that applying each record's
/// key and value in delivery order gives.
pub fn read_deliveries(
    watermarks: &Vec<(i32, i64, i64)>,
    topics: Vec<String>,
    deliveries: &Vec<Delivery>,
) -> (r: (OffsetSnapshot, Vec<(u64, u64)>, bool))
    requires
        spans_fit(watermarks@),
    ensures
        ({
            let start = reader_start(watermarks@, string_views(topics@));
            let events = delivery_events(deliveries@);
            let end = reader_run(start, events);
            &&& sorted_records(snapshot_view(r.0@))
            &&& records_map(snapshot_view(r.0@)) == end.accumulator.offsets
            &&& r.1@.len() == record_count(events)
            &&& forall|k: int|
                0 <= k < r.1@.len() ==> #[trigger] r.1@[k] == ((k + 1) as u64, total_span(watermarks@) as u64)
            &&& r.2 == (end.remaining == Set::<i32>::empty())
            &&& delivered_in_time(start, events) ==> records_map(snapshot_view(r.0@)) == apply_records(
                string_views(topics@),
                Map::empty(),
                record_payloads(events),
            )
        }),
{
    let ghost start = reader_start(watermarks@, string_views(topics@));
    let ghost events = delivery_events(deliveries@);
    let mut reader = OffsetsTopicReader::new(watermarks, topics);
    let mut progress: Vec<(u64, u64)> = Vec::new();
    let mut i: usize = 0;
    proof {
        assert(events.take(0) =~= Seq::<ReadEvent>::empty());
    }
    while i < deliveries.len()
        invariant
            i <= deliveries@.len(),
            events == delivery_events(deliveries@),
            reader.wf(),
            reader@ == reader_run(start, events.take(i as int)),
            reader@.total == start.total,
            start.total == total_span(watermarks@) as u64,
            reader@.read == record_count(events.take(i as int)),
            record_count(events.take(i as int)) <= i,
            progress@.len() == record_count(events.take(i as int)),
            forall|k: int|
                0 <= k < progress@.len() ==> #[trigger] progress@[k] == ((k + 1) as u64, total_span(
                    watermarks@,
                ) as u64),
        decreases deliveries@.len() - i,
    {
        proof {
            assert(events.take(i + 1).drop_last() =~= events.take(i as int));
            assert(events.take(i + 1).last() == delivery_event(deliveries@[i as int]));
        }
        match &deliveries[i] {
            Delivery::Record { partition, offset, key, value } => {
                let k = opt_slice(key);
                let v = opt_slice(value);
                reader.on_record(*partition, *offset, k, v);
                let ghost before = progress@;
                progress.push((reader.read(), reader.total()));
                proof {
                    assert forall|j: int| 0 <= j < progress@.len() implies #[trigger] progress@[j] == (
                    (j + 1) as u64, total_span(watermarks@) as u64) by {
                        if j < before.len() {
                            assert(progress@[j] == before[j]);
                        }
                    }
                }
            },
            Delivery::PartitionEof { partition } => {
                reader.on_partition_eof(*partition);
            },
        }
        i = i + 1;
    }
    proof {
        assert(events.take(i as int) =~= events);
        if delivered_in_time(start, events) {
            lemma_reader_run(start, events);
        }
    }
    let done = reader.is_done();
    (reader.into_snapshot(), progress, done)
}

pub(crate) proof fn lemma_contains_push<T>(s: Seq<T>, x: T)
    ensures
        forall|q: T| #[trigger] s.push(x).contains(q) <==> (s.contains(q) || q == x),
{
    assert forall|q: T| #[trigger] s.push(x).contains(q) <==> (s.contains(q) || q == x) by {
        if s.contains(q) {
            let k = choose|k: int| 0 <= k < s.len() && s[k] == q;
            assert(s.push(x)[k] == q);
        }
        if q == x {
            assert(s.push(x)[s.len() as int] == x);
        }
        if s.push(x).contains(q) {
            let k = choose|k: int| 0 <= k < s.push(x).len() && s.push(x)[k] == q;
            if k < s.len() {
                assert(s[k] == q);
            }
        }
    }
}

fn set_end_offset(end_offsets: &mut Vec<(i32, i64)>, partition: i32, high: i64)
    ensures
        final(end_offsets)@ == set_value(old(end_offsets)@, partition, high),
        distinct_keys(old(end_offsets)@) ==> distinct_keys(final(end_offsets)@),
{
    proof {
        lemma_set_value(end_offsets@, partition, high);
    }
    let ghost s = end_offsets@;
    match end_offset_position(end_offsets, partition) {
        Some(i) => {
            end_offsets.set(i, (partition, high));
            proof {
                assert(end_offsets@ =~= s.update(i as int, (partition, high)));
            }
        },
        None => {
            end_offsets.push((partition, high));
        },
    }
}

fn end_offset_position(end_offsets: &Vec<(i32, i64)>, partition: i32) -> (r: Option<usize>)
    ensures
        first_key_index(end_offsets@, partition) == match r {
            Some(i) => Some(i as int),
            None => None::<int>,
        },
        r matches Some(i) ==> i < end_offsets@.len(),
{
    let ghost s = end_offsets@;
    let mut i: usize = 0;
    while i < end_offsets.len()
        invariant
            i <= s.len(),
            end_offsets@ == s,
            forall|j: int| 0 <= j < i ==> #[trigger] s[j].0 != partition,
        decreases s.len() - i,
    {
        if end_offsets[i].0 == partition {
            proof {
                lemma_first_key_index_at(s, partition, i as int);
            }
            return Some(i);
        }
        i = i + 1;
    }
    proof {
        lemma_first_key_index_none(s, partition);
    }
    None
}

fn find_end_offset(end_offsets: &Vec<(i32, i64)>, partition: i32) -> (r: Option<i64>)
    ensures
        r == value_of(end_offsets@, partition),
{
    let ghost s = end_offsets@;
    let mut i: usize = 0;
    while i < end_offsets.len()
        invariant
            i <= s.len(),
            end_offsets@ == s,
            forall|j: int| 0 <= j < i ==> #[trigger] s[j].0 != partition,
        decreases s.len() - i,
    {
        if end_offsets[i].0 == partition {
            proof {
                lemma_first_key_index_at(s, partition, i as int);
            }
            return Some(end_offsets[i].1);
        }
        i = i + 1;
    }
    proof {
        lemma_first_key_index_none(s, partition);
    }
    None
}

} // verus!

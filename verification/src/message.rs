//! Messages consumed from a target partition, and the source offset that
//! their headers carry.

use vstd::prelude::*;
use vstd::string::StringExecFns;
use vstd::utf8::{decode_utf8, valid_utf8};

use crate::errors::{FetchOffsetError, TransformationError};
use crate::text::{compare_str, parse_i64, parse_int_spec, utf8_to_string, Cmp};

verus! {

/// A header of a message: its key, and its value if it has one.
#[derive(Debug, Clone)]
pub struct MessageHeader {
    pub key: String,
    pub value: Option<Vec<u8>>,
}

/// Mathematical value of a [`MessageHeader`].
pub type HeaderView = (Seq<char>, Option<Seq<u8>>);

impl View for MessageHeader {
    type V = HeaderView;

    open spec fn view(&self) -> HeaderView {
        (
            self.key@,
            match self.value {
                Some(v) => Some(v@),
                None => None,
            },
        )
    }
}

pub open spec fn headers_view(h: Seq<MessageHeader>) -> Seq<HeaderView> {
    h.map_values(|x: MessageHeader| x@)
}

/// The metadata of a message consumed from a partition.
#[derive(Debug, Clone)]
pub struct ConsumedMessage {
    pub topic: String,
    pub partition: i32,
    pub offset: i64,
    pub headers: Option<Vec<MessageHeader>>,
}

impl ConsumedMessage {
    /// A message at `offset` of partition `partition` of `topic`.
    pub fn new(topic: &str, partition: i32, offset: i64, headers: Option<Vec<MessageHeader>>) -> (m: Self)
        ensures
            m.topic@ == topic@,
            m.partition == partition,
            m.offset == offset,
            m.headers == headers,
    {
        ConsumedMessage { topic: topic.to_owned(), partition, offset, headers }
    }
}

/// The first header with key `key`.
pub open spec fn first_header(h: Seq<HeaderView>, key: Seq<char>) -> Option<HeaderView>
    decreases h.len(),
{
    if h.len() == 0 {
        None
    } else if h[0].0 == key {
        Some(h[0])
    } else {
        first_header(h.drop_first(), key)
    }
}

/// The source offset that headers carry under `key`, if they carry one
/// that parses.
pub open spec fn header_offset_spec(h: Seq<HeaderView>, key: Seq<char>) -> Option<i64> {
    if key.len() == 0 {
        None
    } else {
        match first_header(h, key) {
            Some((_, Some(bytes))) => if valid_utf8(bytes) {
                match parse_int_spec(decode_utf8(bytes)) {
                    Some(v) => if i64::MIN <= v <= i64::MAX {
                        Some(v as i64)
                    } else {
                        None
                    },
                    None => None,
                }
            } else {
                None
            },
            _ => None,
        }
    }
}

/// Whether `s` starts with `prefix`.
pub open spec fn starts_with(s: Seq<char>, prefix: Seq<char>) -> bool {
    prefix.len() <= s.len() && s.subrange(0, prefix.len() as int) == prefix
}

/// The outcome of reading the source offset from headers: the offset, or
/// why there is none. Error texts of the UTF-8 decoding and integer parsing
/// are only given by their start.
pub open spec fn header_result_ok(
    h: Seq<HeaderView>,
    key: Seq<char>,
    r: Result<i64, FetchOffsetError>,
) -> bool {
    if key.len() == 0 {
        r matches Err(FetchOffsetError::ErrorParsingHeader(m)) && m@
            == "Offset header key cannot be empty"@
    } else {
        match first_header(h, key) {
            Some((_, Some(bytes))) => if !valid_utf8(bytes) {
                r matches Err(FetchOffsetError::ErrorParsingHeader(m)) && starts_with(
                    m@,
                    "Failed to parse header value as UTF-8: "@,
                )
            } else {
                match header_offset_spec(h, key) {
                    Some(v) => r == Ok::<i64, FetchOffsetError>(v),
                    None => r matches Err(FetchOffsetError::ErrorParsingHeader(m)) && starts_with(
                        m@,
                        "Could not parse '"@ + decode_utf8(bytes) + "' to i64: "@,
                    ),
                }
            },
            _ => r matches Err(FetchOffsetError::HeaderNotFound),
        }
    }
}

/// Read source offset from the message header
pub fn extract_source_offset_from_message_headers(
    headers: Option<&Vec<MessageHeader>>,
    offset_header_key: &str,
) -> (r: Result<i64, TransformationError>)
    ensures
        match headers {
            None => r matches Err(TransformationError::FetchOffsetError(FetchOffsetError::NoHeadersInMessage)),
            Some(h) => match r {
                Ok(v) => header_result_ok(headers_view(h@), offset_header_key@, Ok(v)),
                Err(TransformationError::FetchOffsetError(e)) => header_result_ok(
                    headers_view(h@),
                    offset_header_key@,
                    Err(e),
                ),
                Err(_) => false,
            },
        },
{
    match headers {
        Some(headers) => match get_offset_from_header(headers, offset_header_key) {
            Ok(v) => Ok(v),
            Err(e) => Err(TransformationError::FetchOffsetError(e)),
        },
        None => Err(TransformationError::FetchOffsetError(FetchOffsetError::NoHeadersInMessage)),
    }
}

fn find_header<'a>(headers: &'a Vec<MessageHeader>, key: &str) -> (r: Option<&'a MessageHeader>)
    ensures
        match first_header(headers_view(headers@), key@) {
            Some(hv) => r matches Some(x) && x@ == hv,
            None => r is None,
        },
{
    let ghost hs = headers_view(headers@);
    let mut i: usize = 0;
    proof {
        assert(hs.skip(0) =~= hs);
    }
    while i < headers.len()
        invariant
            i <= headers@.len(),
            hs == headers_view(headers@),
            first_header(hs, key@) == first_header(hs.skip(i as int), key@),
        decreases headers@.len() - i,
    {
        proof {
            assert(hs.skip(i as int)[0] == headers@[i as int]@);
            assert(hs.skip(i as int).drop_first() =~= hs.skip(i + 1));
        }
        if compare_str(headers[i].key.as_str(), key) == Cmp::Equal {
            return Some(&headers[i]);
        }
        i = i + 1;
    }
    proof {
        assert(hs.skip(i as int).len() == 0);
    }
    None
}

/// Fetch offset from message header and try to parse it to i64
pub fn get_offset_from_header(headers: &Vec<MessageHeader>, offset_header_key: &str) -> (r: Result<
    i64,
    FetchOffsetError,
>)
    ensures
        header_result_ok(headers_view(headers@), offset_header_key@, r),
{
    if offset_header_key.is_empty() {
        return Err(FetchOffsetError::ErrorParsingHeader(String::from_str("Offset header key cannot be empty")));
    }
    match find_header(headers, offset_header_key) {
        Some(header) => match &header.value {
            Some(value) => {
                let parsed = match utf8_to_string(value.as_slice()) {
                    Ok(s) => s,
                    Err(e) => {
                        let mut m = String::from_str("Failed to parse header value as UTF-8: ");
                        let ghost prefix = m@;
                        m.append(e.as_str());
                        proof {
                            assert(m@.subrange(0, prefix.len() as int) =~= prefix);
                        }
                        return Err(FetchOffsetError::ErrorParsingHeader(m));
                    },
                };
                match parse_i64(parsed.as_str()) {
                    Ok(v) => Ok(v),
                    Err(e) => {
                        let mut m = String::from_str("Could not parse '");
                        m.append(parsed.as_str());
                        m.append("' to i64: ");
                        let ghost prefix = m@;
                        m.append(e.as_str());
                        proof {
                            assert(m@.subrange(0, prefix.len() as int) =~= prefix);
                        }
                        Err(FetchOffsetError::ErrorParsingHeader(m))
                    },
                }
            },
            None => Err(FetchOffsetError::HeaderNotFound),
        },
        None => Err(FetchOffsetError::HeaderNotFound),
    }
}

} // verus!

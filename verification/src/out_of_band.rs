//! Errors that the Kafka client reports out of band, in its log, and the
//! reading of the log messages that carry them.

use vstd::prelude::*;
use vstd::string::StringExecFns;

use crate::text::{parse_u64, parse_uint_spec, split_once, split_once_spec};

verus! {

/// An error that the Kafka client reports in its log rather than through a call.
#[derive(Debug, Clone)]
pub enum OutOfBandError {
    PartitionCountShrunk,
    Other(String),
}

impl OutOfBandError {
    /// The text of the error.
    pub fn message(&self) -> (r: String)
        ensures
            r@ == match self {
                OutOfBandError::PartitionCountShrunk => "Partitions count shrunk"@,
                OutOfBandError::Other(m) => "Other out-of-band error: "@ + m@,
            },
    {
        match self {
            OutOfBandError::PartitionCountShrunk => String::from_str("Partitions count shrunk"),
            OutOfBandError::Other(m) => {
                let mut r = String::from_str("Other out-of-band error: ");
                r.append(m.as_str());
                r
            },
        }
    }
}

/// The topic of an "OFFSET" warning: the word after the first space, up to
/// the next space.
pub open spec fn offset_warning_topic(err: Seq<char>) -> Option<Seq<char>> {
    match split_once_spec(err, ' ') {
        Some((_, rest)) => match split_once_spec(rest, ' ') {
            Some((topic, _)) => Some(topic),
            None => None,
        },
        None => None,
    }
}

/// Extracts the topic name from an "OFFSET" warning message.
pub fn parse_offset_warning_message(err: &str) -> (r: Option<String>)
    ensures
        match offset_warning_topic(err@) {
            Some(t) => r matches Some(x) && x@ == t,
            None => r is None,
        },
{
    let (_thread, rest) = split_once(err, ' ')?;
    let (topic, _) = split_once(rest.as_str(), ' ')?;
    Some(topic)
}

pub open spec fn opt_string_views(s: Seq<Option<String>>) -> Seq<Option<Seq<char>>> {
    s.map_values(|x: Option<String>| match x {
        Some(t) => Some(t@),
        None => None,
    })
}

/// What the regular expression `pattern` captures in `text`: `Err` when the
/// pattern does not compile, `None` when it does not match, and otherwise
/// the text of each capture group (`None` for a group that took no part in
/// the match), the whole match not included.
pub uninterp spec fn regex_captures(pattern: Seq<char>, text: Seq<char>) -> Result<Option<Seq<Option<Seq<char>>>>, ()>;

/// The captures of `pattern` in `text`.
///
/// Trusted: compiles `pattern` with `regex::Regex::new` and calls
/// `captures` on `text`; the groups after the whole match are taken as
/// strings. The result is a function of the two arguments alone, named
/// `regex_captures`; nothing more is stated of it.
#[verifier::external_body]
fn captures(pattern: &str, text: &str) -> (r: Result<Option<Vec<Option<String>>>, ()>)
    ensures
        match regex_captures(pattern@, text@) {
            Err(()) => r is Err,
            Ok(None) => r matches Ok(None),
            Ok(Some(groups)) => r matches Ok(Some(g)) && opt_string_views(g@) == groups,
        },
{
    let re = regex::Regex::new(pattern).map_err(|_| ())?;
    Ok(re.captures(text).map(|c| c.iter().skip(1).map(|m| m.map(|m| m.as_str().to_owned())).collect()))
}

/// The pattern of a "PARTCNT" warning, after its first word.
pub open spec fn partcnt_pattern() -> Seq<char> {
    "^Topic ([^ ]+) partition count changed from (\\d+) to (\\d+)"@
}

/// The topic and the two counts, as text, that the "PARTCNT" pattern
/// captures in `text`.
pub open spec fn partcnt_captures(text: Seq<char>) -> Option<(Seq<char>, Seq<char>, Seq<char>)> {
    match regex_captures(partcnt_pattern(), text) {
        Ok(Some(g)) => if g.len() >= 3 && g[0] is Some && g[1] is Some && g[2] is Some {
            Some((g[0]->Some_0, g[1]->Some_0, g[2]->Some_0))
        } else {
            None
        },
        _ => None,
    }
}

fn match_partcnt(text: &str) -> (r: Option<(String, String, String)>)
    ensures
        match partcnt_captures(text@) {
            Some((t, a, b)) => r matches Some(x) && x.0@ == t && x.1@ == a && x.2@ == b,
            None => r is None,
        },
{
    let groups = match captures("^Topic ([^ ]+) partition count changed from (\\d+) to (\\d+)", text) {
        Ok(Some(g)) => g,
        _ => {
            return None;
        },
    };
    if groups.len() < 3 {
        return None;
    }
    proof {
        assert(opt_string_views(groups@)[0] == match groups@[0] { Some(t) => Some(t@), None => None::<Seq<char>> });
        assert(opt_string_views(groups@)[1] == match groups@[1] { Some(t) => Some(t@), None => None::<Seq<char>> });
        assert(opt_string_views(groups@)[2] == match groups@[2] { Some(t) => Some(t@), None => None::<Seq<char>> });
    }
    match (&groups[0], &groups[1], &groups[2]) {
        (Some(t), Some(a), Some(b)) => Some((t.clone(), a.clone(), b.clone())),
        _ => None,
    }
}

/// The text after the first space of a "PARTCNT" warning, which the pattern
/// is matched against.
pub open spec fn partcnt_rest(err: Seq<char>) -> Option<Seq<char>> {
    match split_once_spec(err, ' ') {
        Some((_, rest)) => Some(rest),
        None => None,
    }
}

/// Whether the counts that a "PARTCNT" warning captures, if any, are
/// numbers that fit in a `u32`.
pub open spec fn partcnt_counts_fit(err: Seq<char>) -> bool {
    match partcnt_rest(err) {
        Some(rest) => match partcnt_captures(rest) {
            Some((_, a, b)) => (parse_uint_spec(a) matches Some(x) && x <= u32::MAX) && (parse_uint_spec(b) matches Some(
                y,
            ) && y <= u32::MAX),
            None => true,
        },
        None => true,
    }
}

/// The topic and the old and new partition counts of a "PARTCNT" warning.
pub open spec fn partcnt_warning(err: Seq<char>) -> Option<(Seq<char>, nat, nat)> {
    match partcnt_rest(err) {
        Some(rest) => match partcnt_captures(rest) {
            Some((t, a, b)) => Some((t, parse_uint_spec(a)->Some_0, parse_uint_spec(b)->Some_0)),
            None => None,
        },
        None => None,
    }
}

fn parse_u32(s: &str) -> (r: Option<u32>)
    ensures
        r is Some <==> (parse_uint_spec(s@) matches Some(v) && v <= u32::MAX),
        r matches Some(v) ==> parse_uint_spec(s@) == Some(v as nat),
{
    match parse_u64(s) {
        Ok(v) => if v <= 0xffff_ffff {
            Some(v as u32)
        } else {
            None
        },
        Err(_) => None,
    }
}

/// The topic and the old and new partition counts from the three texts
/// that the "PARTCNT" pattern captures; counts that are not numbers fitting
/// in a `u32` are out of its domain.
pub fn partcnt_from_captures(topic: String, from: &str, to: &str) -> (r: (String, u32, u32))
    requires
        parse_uint_spec(from@) matches Some(x) && x <= u32::MAX,
        parse_uint_spec(to@) matches Some(y) && y <= u32::MAX,
    ensures
        r.0@ == topic@,
        r.1 == parse_uint_spec(from@)->Some_0,
        r.2 == parse_uint_spec(to@)->Some_0,
{
    match (parse_u32(from), parse_u32(to)) {
        (Some(a), Some(b)) => (topic, a, b),
        _ => {
            proof {
                assert(false);
            }
            (topic, 0, 0)
        },
    }
}

/// Extracts the topic and the old and new partition counts from a
/// "PARTCNT" warning message; counts that do not fit in a `u32` are out of
/// its domain.
pub fn parse_partcnt_warning_message(err: &str) -> (r: Option<(String, u32, u32)>)
    requires
        partcnt_counts_fit(err@),
    ensures
        match partcnt_warning(err@) {
            Some((t, a, b)) => r matches Some(x) && x.0@ == t && x.1 == a && x.2 == b,
            None => r is None,
        },
{
    let (_thread, rest) = split_once(err, ' ')?;
    let (topic, from, to) = match_partcnt(rest.as_str())?;
    Some(partcnt_from_captures(topic, from.as_str(), to.as_str()))
}

/// Reads a "PARTCNT" warning message as [`parse_partcnt_warning_message`]
/// does, or gives `None` when its counts do not fit in a `u32`.
pub fn checked_partcnt_warning(err: &str) -> (r: Option<Option<(String, u32, u32)>>)
    ensures
        r is Some <==> partcnt_counts_fit(err@),
        r matches Some(res) ==> match partcnt_warning(err@) {
            Some((t, a, b)) => res matches Some(x) && x.0@ == t && x.1 == a && x.2 == b,
            None => res is None,
        },
{
    let fits = match split_once(err, ' ') {
        Some((_thread, rest)) => match match_partcnt(rest.as_str()) {
            Some((_topic, from, to)) => parse_u32(from.as_str()).is_some() && parse_u32(to.as_str()).is_some(),
            None => true,
        },
        None => true,
    };
    if fits {
        Some(parse_partcnt_warning_message(err))
    } else {
        None
    }
}

/// The notice to send to the subscribers of a topic for a "PARTCNT"
/// warning: a shrunk partition count is reported, a grown one is not.
pub fn partcnt_notice(warning: &Option<(String, u32, u32)>) -> (r: Option<(String, OutOfBandError)>)
    ensures
        match warning {
            Some(w) => if w.1 > w.2 {
                r matches Some(n) && n.0@ == w.0@ && n.1 is PartitionCountShrunk
            } else {
                r is None
            },
            None => r is None,
        },
{
    match warning {
        Some((topic, from, to)) => if *from > *to {
            Some((topic.clone(), OutOfBandError::PartitionCountShrunk))
        } else {
            None
        },
        None => None,
    }
}

} // verus!

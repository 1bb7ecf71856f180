//! The command line of the bridge: its commands, and the parsing of the
//! values of its options.

use vstd::prelude::*;
use vstd::string::StringExecFns;

use crate::client::{bootstrap_key, KafkaBridgeConfig};
use crate::keyed::{distinct_keys, set_value};
use crate::properties::{
    consumer_defaults, extend_pairs, is_ulid_text, pair_views, KafkaConsumerProperties, PropertyView,
};
use crate::text::{
    compare_str, first_index_of, parse_u64, parse_uint_spec, split_once, split_once_spec, Cmp,
};

verus! {

/// Where offset records are read from: standard input, or a file.
#[derive(Debug, Clone)]
pub enum CsvInput {
    Stdin,
    File(String),
}

impl Default for CsvInput {
    fn default() -> (r: Self)
        ensures
            r is Stdin,
    {
        CsvInput::Stdin
    }
}

impl CsvInput {
    /// How the input is shown: `stdin`, or the path of the file.
    pub fn describe(&self) -> (r: String)
        ensures
            r@ == match self {
                CsvInput::Stdin => "stdin"@,
                CsvInput::File(path) => path@,
            },
    {
        match self {
            CsvInput::Stdin => String::from_str("stdin"),
            CsvInput::File(path) => path.clone(),
        }
    }
}

/// The input that an option value names: `-` for standard input, otherwise
/// the path of a file.
pub fn parse_csv_input(value: &str) -> (r: CsvInput)
    ensures
        match r {
            CsvInput::Stdin => value@ == "-"@,
            CsvInput::File(path) => value@ != "-"@ && path@ == value@,
        },
{
    if compare_str(value, "-") == Cmp::Equal {
        CsvInput::Stdin
    } else {
        CsvInput::File(value.to_owned())
    }
}

/// The message of a property option that is not `key=value`.
pub open spec fn property_format_message(value: Seq<char>) -> Seq<char> {
    "Property '"@ + value + "' must be in format 'key=value'"@
}

/// The properties that a `--properties` value gives: none for an empty
/// value, one for `key=value` (split at the first `=`), an error otherwise.
pub fn parse_property(value: &str) -> (r: Result<Vec<(String, String)>, String>)
    ensures
        value@.len() == 0 ==> (r matches Ok(v) && v@.len() == 0),
        value@.len() > 0 ==> match split_once_spec(value@, '=') {
            Some((k, v)) => r matches Ok(p) && pair_views(p@) == seq![(k, v)],
            None => r matches Err(m) && m@ == property_format_message(value@),
        },
{
    let mut properties: Vec<(String, String)> = Vec::new();
    if value.unicode_len() == 0 {
        return Ok(properties);
    }
    match split_once(value, '=') {
        Some(kv) => {
            let ghost p = (kv.0@, kv.1@);
            properties.push(kv);
            proof {
                assert(pair_views(properties@) =~= seq![p]);
            }
            Ok(properties)
        },
        None => {
            let mut m = String::from_str("Property '");
            m.append(value);
            m.append("' must be in format 'key=value'");
            Err(m)
        },
    }
}

/// The number of seconds that a timeout option gives, or a message that
/// starts with the value when it is not a number of seconds.
pub fn parse_duration_secs(value: &str) -> (r: Result<u64, String>)
    ensures
        r is Ok <==> (parse_uint_spec(value@) matches Some(v) && v <= u64::MAX),
        r matches Ok(v) ==> parse_uint_spec(value@) == Some(v as nat),
        r matches Err(m) ==> exists|reason: Seq<char>|
            m@ == value@ + " could not be parsed to seconds. Reason: "@ + reason,
{
    match parse_u64(value) {
        Ok(seconds) => Ok(seconds),
        Err(err) => {
            let mut m = value.to_owned();
            m.append(" could not be parsed to seconds. Reason: ");
            m.append(err.as_str());
            Err(m)
        },
    }
}

/// How to connect to a Kafka cluster, and which topics to work on.
#[derive(Debug, Clone)]
pub struct KafkaConnection {
    /// The bootstrap server URL for the Kafka broker.
    pub bootstrap_server: String,
    /// Additional properties for the Kafka client.
    pub properties: Vec<(String, String)>,
    /// The topics; all topics when there is none.
    pub topics: Vec<String>,
}

impl KafkaConnection {
    /// Consumer properties for this connection: the given properties with the
    /// consumer defaults, and the bootstrap server set.
    pub fn to_consumer_properties(&self) -> (r: KafkaConsumerProperties)
        ensures
            distinct_keys(r@),
            exists|id: Seq<char>|
                is_ulid_text(id) && r@ == set_value(
                    consumer_defaults(pair_views(self.properties@), "kbridge-"@ + id),
                    bootstrap_key(),
                    self.bootstrap_server@,
                ),
    {
        let mut props = KafkaConsumerProperties::from_iter(copy_properties(&self.properties));
        props.insert("bootstrap.servers", self.bootstrap_server.as_str());
        props
    }

    /// The bridge configuration of this connection: the bootstrap server,
    /// then the given properties.
    pub fn to_bridge_config(&self) -> (r: KafkaBridgeConfig)
        ensures
            r@ == extend_pairs(seq![(bootstrap_key(), self.bootstrap_server@)], pair_views(self.properties@)),
    {
        KafkaBridgeConfig::new(self.bootstrap_server.clone()).set_properties(copy_properties(&self.properties))
    }
}

fn copy_properties(pairs: &Vec<(String, String)>) -> (r: Vec<(String, String)>)
    ensures
        pair_views(r@) == pair_views(pairs@),
{
    let mut r: Vec<(String, String)> = Vec::new();
    let mut i: usize = 0;
    while i < pairs.len()
        invariant
            i <= pairs@.len(),
            pair_views(r@) == pair_views(pairs@).take(i as int),
        decreases pairs@.len() - i,
    {
        let ghost before = pair_views(r@);
        r.push((pairs[i].0.clone(), pairs[i].1.clone()));
        proof {
            assert(pair_views(r@) =~= before.push(pair_views(pairs@)[i as int]));
            assert(pair_views(pairs@).take(i + 1) =~= pair_views(pairs@).take(i as int).push(
                pair_views(pairs@)[i as int],
            ));
        }
        i = i + 1;
    }
    proof {
        assert(pair_views(pairs@).take(i as int) =~= pair_views(pairs@));
    }
    r
}

/// The commands of the bridge.
#[derive(Debug, Clone)]
pub enum Commands {
    /// Fetches the source offsets from a Kafka cluster: from its group
    /// coordinator, or from a restored copy of its offsets topic when one is
    /// named.
    Fetch { kafka_connection: KafkaConnection, timeout_secs: u64, offsets_topic: Option<String> },
    /// Calculates target offsets based on a message header in the target cluster.
    Calculate { offset_header: String, input: CsvInput, kafka_connection: KafkaConnection },
    /// Restores consumer groups in the target cluster from calculated target offsets.
    Apply {
        input: CsvInput,
        kafka_connection: KafkaConnection,
        skip_confirmation: bool,
        dry_run: bool,
    },
}

/// The arguments of the bridge.
#[derive(Debug, Clone)]
pub struct Args {
    pub command: Commands,
    pub verbose: bool,
}

/// The number of times `c` occurs in `s`.
pub open spec fn count_char(s: Seq<char>, c: char) -> nat
    decreases s.len(),
{
    if s.len() == 0 {
        0
    } else {
        count_char(s.drop_last(), c) + if s.last() == c { 1nat } else { 0nat }
    }
}

/// The pair that a `key=value` string gives when it holds exactly one `=`.
pub open spec fn optional_pair(s: Seq<char>) -> Option<(Seq<char>, Seq<char>)> {
    if count_char(s, '=') == 1 {
        split_once_spec(s, '=')
    } else {
        None
    }
}

/// The pairs of the strings that hold exactly one `=`, in order; the others
/// are skipped.
pub open spec fn optional_pairs(s: Seq<Seq<char>>) -> Seq<PropertyView>
    decreases s.len(),
{
    if s.len() == 0 {
        Seq::empty()
    } else {
        match optional_pair(s.last()) {
            Some(p) => optional_pairs(s.drop_last()).push(p),
            None => optional_pairs(s.drop_last()),
        }
    }
}

fn count_equals(s: &str) -> (r: usize)
    ensures
        r == count_char(s@, '='),
{
    let n = s.unicode_len();
    let mut i: usize = 0;
    let mut count: usize = 0;
    proof {
        assert(s@.take(0) =~= Seq::<char>::empty());
    }
    while i < n
        invariant
            i <= n,
            n == s@.len(),
            count == count_char(s@.take(i as int), '='),
            count <= i,
        decreases n - i,
    {
        proof {
            assert(s@.take(i + 1).drop_last() =~= s@.take(i as int));
            assert(s@.take(i + 1).last() == s@[i as int]);
        }
        if s.get_char(i) == '=' {
            count = count + 1;
        }
        i = i + 1;
    }
    proof {
        assert(s@.take(i as int) =~= s@);
    }
    count
}

/// The properties that optional `key=value` strings give: each string with
/// exactly one `=` gives a pair, the others are skipped.
pub fn optional_properties(properties: &Option<Vec<String>>) -> (r: Vec<(String, String)>)
    ensures
        pair_views(r@) == match properties {
            Some(p) => optional_pairs(crate::text::string_views(p@)),
            None => Seq::empty(),
        },
{
    let mut r: Vec<(String, String)> = Vec::new();
    proof {
        assert(pair_views(r@) =~= Seq::<PropertyView>::empty());
    }
    match properties {
        None => r,
        Some(p) => {
            let ghost sv = crate::text::string_views(p@);
            let mut i: usize = 0;
            proof {
                assert(sv.take(0) =~= Seq::<Seq<char>>::empty());
            }
            while i < p.len()
                invariant
                    i <= p@.len(),
                    sv == crate::text::string_views(p@),
                    pair_views(r@) == optional_pairs(sv.take(i as int)),
                decreases p@.len() - i,
            {
                proof {
                    assert(sv.take(i + 1).drop_last() =~= sv.take(i as int));
                    assert(sv.take(i + 1).last() == p@[i as int]@);
                }
                if count_equals(p[i].as_str()) == 1 {
                    match split_once(p[i].as_str(), '=') {
                        Some(kv) => {
                            let ghost before = pair_views(r@);
                            let ghost e = (kv.0@, kv.1@);
                            r.push(kv);
                            proof {
                                assert(pair_views(r@) =~= before.push(e));
                            }
                        },
                        None => {},
                    }
                }
                i = i + 1;
            }
            proof {
                assert(sv.take(i as int) =~= sv);
            }
            r
        },
    }
}

/// Whether one of the pairs sets the consumer group.
pub open spec fn sets_group_id(pairs: Seq<PropertyView>) -> bool {
    exists|j: int| 0 <= j < pairs.len() && #[trigger] pairs[j].0 == "group.id"@
}

/// The consumer group used when none is given.
pub open spec fn default_group_id() -> Seq<char> {
    "bridge-consumer-group"@
}

/// The optional properties, with the default consumer group when they set
/// none.
pub fn optional_properties_with_group(properties: &Option<Vec<String>>) -> (r: Vec<(String, String)>)
    ensures
        ({
            let pairs = match properties {
                Some(p) => optional_pairs(crate::text::string_views(p@)),
                None => Seq::empty(),
            };
            pair_views(r@) == if sets_group_id(pairs) {
                pairs
            } else {
                pairs.push(("group.id"@, default_group_id()))
            }
        }),
{
    let mut r = optional_properties(properties);
    let mut present = false;
    let mut i: usize = 0;
    while i < r.len()
        invariant
            i <= r@.len(),
            present == exists|j: int| 0 <= j < i && #[trigger] pair_views(r@)[j].0 == "group.id"@,
        decreases r@.len() - i,
    {
        let is_group = compare_str(r[i].0.as_str(), "group.id") == Cmp::Equal;
        proof {
            assert(pair_views(r@)[i as int].0 == r@[i as int].0@);
            if present {
                let j = choose|j: int| 0 <= j < i && #[trigger] pair_views(r@)[j].0 == "group.id"@;
                assert(0 <= j < i + 1);
            }
        }
        if is_group {
            present = true;
        }
        i = i + 1;
    }
    if !present {
        let ghost before = pair_views(r@);
        r.push((String::from_str("group.id"), String::from_str("bridge-consumer-group")));
        proof {
            assert(pair_views(r@) =~= before.push(("group.id"@, default_group_id())));
        }
    }
    r
}

/// A property written as `key=value`, with no `=` in the key, is read back
/// as that key and value, whatever the value holds.
pub proof fn law_property_roundtrip(key: Seq<char>, value: Seq<char>)
    requires
        !key.contains('='),
    ensures
        split_once_spec(key + seq!['='] + value, '=') == Some((key, value)),
{
    let s = key + seq!['='] + value;
    let n = key.len() as int;
    assert(s[n] == '=');
    assert(exists|i: int| 0 <= i < s.len() && s[i] == '=');
    let i = choose|i: int| 0 <= i < s.len() && s[i] == '=' && forall|j: int| 0 <= j < i ==> s[j] != '=';
    assert(forall|j: int| 0 <= j < n ==> s[j] == key[j]);
    if i < n {
        assert(key[i] == '=');
        assert(key.contains('='));
    }
    assert(i == n);
    assert(first_index_of(s, '=') == Some(n));
    assert(s.take(n) =~= key);
    assert(s.skip(n + 1) =~= value);
}

} // verus!

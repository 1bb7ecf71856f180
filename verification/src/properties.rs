//! Properties of Kafka consumers and producers, with the defaults this
//! tool relies on.

use vstd::prelude::*;
use vstd::string::StringExecFns;

use crate::keyed::{
    distinct_keys, first_key_index, lemma_first_key_index, lemma_first_key_index_at,
    lemma_first_key_index_none, lemma_set_value, set_value, value_of,
};
use crate::text::{compare_str, decimal, format_i64, lemma_str_order, str_lt, Cmp};

verus! {

/// A property: (key, value).
pub type PropertyView = (Seq<char>, Seq<char>);

/// Default value for the "queue.buffering.max.kbytes" rdkafka producer setting.
pub const DEFAULT_QUEUE_BUFFERING_MAX_KBYTES: u32 = 131072;

/// Default value for the 'fetch.queue.backoff.ms' rdkafka consumer setting.
pub const DEFAULT_FETCH_QUEUE_BACKOFF_MS: u32 = 100;

/// Default value for the 'queued.min.message' rdkafka consumer setting.
pub const DEFAULT_QUEUED_MIN_MESSAGES: u32 = 1_000_000;

/// Default value for the 'queued.max.messages.kbytes' rdkafka consumer setting.
pub const DEFAULT_QUEUED_MAX_MESSAGES_KBYTES: u32 = 262_144;

/// Default value for the 'fetch.message.max.bytes' rdkafka consumer setting.
pub const DEFAULT_FETCH_MESSAGE_MAX_BYTES: u32 = 4_194_304;

/// The properties `p` extended by `pairs`, a later pair for a key replacing
/// an earlier value.
pub open spec fn extend_pairs(p: Seq<PropertyView>, pairs: Seq<PropertyView>) -> Seq<PropertyView>
    decreases pairs.len(),
{
    if pairs.len() == 0 {
        p
    } else {
        set_value(extend_pairs(p, pairs.drop_last()), pairs.last().0, pairs.last().1)
    }
}

/// Properties given as pairs, a later pair for a key replacing an earlier one.
pub open spec fn collect_pairs(pairs: Seq<PropertyView>) -> Seq<PropertyView>
    decreases pairs.len(),
{
    if pairs.len() == 0 {
        Seq::empty()
    } else {
        set_value(collect_pairs(pairs.drop_last()), pairs.last().0, pairs.last().1)
    }
}

/// The properties with `key` set to `value` unless it is already set.
pub open spec fn with_default(p: Seq<PropertyView>, key: Seq<char>, value: Seq<char>) -> Seq<PropertyView> {
    if value_of(p, key) is Some {
        p
    } else {
        set_value(p, key, value)
    }
}

/// The properties without `key`.
pub open spec fn without_key(p: Seq<PropertyView>, key: Seq<char>) -> Seq<PropertyView> {
    p.filter(key_differs(key))
}

/// Whether a property has another key than `key`.
pub open spec fn key_differs(key: Seq<char>) -> spec_fn(PropertyView) -> bool {
    |e: PropertyView| e.0 != key
}

/// The keys whose values are never shown.
pub open spec fn is_masked(key: Seq<char>) -> bool {
    ||| key == "ssl.key.password"@
    ||| key == "ssl.key.pem"@
    ||| key == "ssl_key"@
    ||| key == "ssl.ca.pem"@
    ||| key == "ssl_ca"@
    ||| key == "ssl.keystore.password"@
    ||| key == "sasl.password"@
    ||| key == "sasl.username"@
    ||| key == "sasl.oauthbearer.client.secret"@
}

pub open spec fn pair_views(s: Seq<(String, String)>) -> Seq<PropertyView> {
    s.map_values(|e: (String, String)| (e.0@, e.1@))
}

/// Kafka properties: distinct keys with their values.
#[derive(Clone)]
pub(crate) struct KafkaProperties {
    props: Vec<(String, String)>,
}

impl KafkaProperties {
    pub(crate) closed spec fn view(&self) -> Seq<PropertyView> {
        pair_views(self.props@)
    }

    fn position(&self, key: &str) -> (r: Option<usize>)
        ensures
            first_key_index(self.view(), key@) == match r {
                Some(i) => Some(i as int),
                None => None::<int>,
            },
            r matches Some(i) ==> i < self.props@.len(),
    {
        let ghost s = self.view();
        let mut i: usize = 0;
        while i < self.props.len()
            invariant
                i <= self.props@.len(),
                s == self.view(),
                forall|j: int| 0 <= j < i ==> #[trigger] s[j].0 != key@,
            decreases self.props@.len() - i,
        {
            if compare_str(self.props[i].0.as_str(), key) == Cmp::Equal {
                proof {
                    lemma_first_key_index_at(s, key@, i as int);
                }
                return Some(i);
            }
            i = i + 1;
        }
        proof {
            lemma_first_key_index_none(s, key@);
        }
        None
    }

    pub(crate) fn contains_key(&self, key: &str) -> (r: bool)
        ensures
            r == (value_of(self.view(), key@) is Some),
    {
        self.position(key).is_some()
    }

    pub(crate) fn set(&mut self, key: String, value: String)
        ensures
            final(self).view() == set_value(old(self).view(), key@, value@),
            distinct_keys(old(self).view()) ==> distinct_keys(final(self).view()),
    {
        let ghost s = self.view();
        proof {
            lemma_set_value(s, key@, value@);
        }
        let ghost kv = (key@, value@);
        match self.position(key.as_str()) {
            Some(i) => {
                self.props.set(i, (key, value));
                proof {
                    assert(self.view() =~= s.update(i as int, kv));
                }
            },
            None => {
                self.props.push((key, value));
                proof {
                    assert(self.view() =~= s.push(kv));
                }
            },
        }
    }

    fn set_default(&mut self, key: &str, value: String)
        ensures
            final(self).view() == with_default(old(self).view(), key@, value@),
            distinct_keys(old(self).view()) ==> distinct_keys(final(self).view()),
    {
        if !self.contains_key(key) {
            self.set(key.to_owned(), value);
        }
    }

    fn remove(&mut self, key: &str)
        ensures
            final(self).view() == without_key(old(self).view(), key@),
            distinct_keys(old(self).view()) ==> distinct_keys(final(self).view()),
    {
        let ghost s = self.view();
        let mut kept: Vec<(String, String)> = Vec::new();
        let mut i: usize = 0;
        proof {
            reveal_with_fuel(Seq::<_>::filter, 1);
            assert(s.take(0) =~= Seq::<PropertyView>::empty());
            assert(pair_views(kept@) =~= Seq::<PropertyView>::empty());
        }
        while i < self.props.len()
            invariant
                i <= self.props@.len(),
                s == self.view(),
                pair_views(kept@) == without_key(s.take(i as int), key@),
                forall|a: int| 0 <= a < kept@.len() ==> exists|b: int| 0 <= b < i && #[trigger] pair_views(kept@)[a] == s[b],
                forall|a: int, b: int| 0 <= a < b < kept@.len() ==> exists|c: int, d: int| 0 <= c < d < i && #[trigger] pair_views(kept@)[a] == s[c] && #[trigger] pair_views(kept@)[b] == s[d],
            decreases self.props@.len() - i,
        {
            let ghost before = pair_views(kept@);
            let keep = !(compare_str(self.props[i].0.as_str(), key) == Cmp::Equal);
            if keep {
                kept.push((self.props[i].0.clone(), self.props[i].1.clone()));
                proof {
                    assert(pair_views(kept@) =~= before.push(s[i as int]));
                    assert forall|a: int| 0 <= a < kept@.len() implies exists|b: int| 0 <= b < i + 1 && #[trigger] pair_views(kept@)[a] == s[b] by {
                        if a == kept@.len() - 1 {
                            assert(pair_views(kept@)[a] == s[i as int]);
                        } else {
                            assert(pair_views(kept@)[a] == before[a]);
                        }
                    }
                    assert forall|a: int, b: int| 0 <= a < b < kept@.len() implies exists|c: int, d: int| 0 <= c < d < i + 1 && #[trigger] pair_views(kept@)[a] == s[c] && #[trigger] pair_views(kept@)[b] == s[d] by {
                        assert(pair_views(kept@)[a] == before[a]);
                        if b == kept@.len() - 1 {
                            let c = choose|c: int| 0 <= c < i && #[trigger] before[a] == s[c];
                            assert(pair_views(kept@)[b] == s[i as int]);
                            assert(pair_views(kept@)[a] == s[c]);
                        } else {
                            assert(pair_views(kept@)[b] == before[b]);
                        }
                    }
                }
            }
            proof {
                reveal_with_fuel(Seq::<_>::filter, 1);
                assert(s.take(i + 1).drop_last() =~= s.take(i as int));
                assert(s.take(i + 1).last() == s[i as int]);
                if !keep {
                    assert(pair_views(kept@) =~= before);
                }
            }
            i = i + 1;
        }
        proof {
            assert(s.take(i as int) =~= s);
            if distinct_keys(s) {
                assert forall|a: int, b: int| 0 <= a < b < pair_views(kept@).len() implies #[trigger] pair_views(kept@)[a].0 != #[trigger] pair_views(kept@)[b].0 by {
                    let (c, d) = choose|c: int, d: int| 0 <= c < d < i && #[trigger] pair_views(kept@)[a] == s[c] && #[trigger] pair_views(kept@)[b] == s[d];
                }
            }
        }
        self.props = kept;
    }
}

/// Properties of a Kafka consumer.
#[derive(Clone)]
pub struct KafkaConsumerProperties {
    inner: KafkaProperties,
}

/// Properties of a Kafka producer.
#[derive(Clone)]
pub struct KafkaProducerProperties {
    inner: KafkaProperties,
}

impl View for KafkaConsumerProperties {
    type V = Seq<PropertyView>;

    closed spec fn view(&self) -> Seq<PropertyView> {
        self.inner.view()
    }
}

impl View for KafkaProducerProperties {
    type V = Seq<PropertyView>;

    closed spec fn view(&self) -> Seq<PropertyView> {
        self.inner.view()
    }
}

impl KafkaProperties {
    pub(crate) fn empty() -> (r: KafkaProperties)
        ensures
            r.view() == Seq::<PropertyView>::empty(),
    {
        let r = KafkaProperties { props: Vec::new() };
        proof {
            assert(r.view() =~= Seq::<PropertyView>::empty());
        }
        r
    }

    /// Sets each of `pairs` in turn.
    pub(crate) fn extend(&mut self, pairs: &Vec<(String, String)>)
        ensures
            final(self).view() == extend_pairs(old(self).view(), pair_views(pairs@)),
            distinct_keys(old(self).view()) ==> distinct_keys(final(self).view()),
    {
        let ghost p = pair_views(pairs@);
        let ghost start = self.view();
        let mut i: usize = 0;
        proof {
            assert(p.take(0) =~= Seq::<PropertyView>::empty());
        }
        while i < pairs.len()
            invariant
                i <= pairs@.len(),
                p == pair_views(pairs@),
                self.view() == extend_pairs(start, p.take(i as int)),
                distinct_keys(start) ==> distinct_keys(self.view()),
            decreases pairs@.len() - i,
        {
            proof {
                assert(p.take(i + 1).drop_last() =~= p.take(i as int));
                assert(p.take(i + 1).last() == p[i as int]);
            }
            self.set(pairs[i].0.clone(), pairs[i].1.clone());
            i = i + 1;
        }
        proof {
            assert(p.take(i as int) =~= p);
        }
    }

    /// The value of a property.
    pub(crate) fn get(&self, key: &str) -> (r: Option<&str>)
        ensures
            match value_of(self.view(), key@) {
                Some(v) => r matches Some(x) && x@ == v,
                None => r is None,
            },
    {
        match self.position(key) {
            Some(i) => {
                proof {
                    lemma_first_key_index(self.view(), key@);
                }
                Some(self.props[i].1.as_str())
            },
            None => None,
        }
    }

    /// A copy of the properties.
    pub(crate) fn duplicate(&self) -> (r: KafkaProperties)
        ensures
            r.view() == self.view(),
    {
        KafkaProperties { props: copy_pairs(&self.props) }
    }

    /// The properties, in order.
    pub(crate) fn entries(&self) -> (r: Vec<(String, String)>)
        ensures
            pair_views(r@) == self.view(),
    {
        copy_pairs(&self.props)
    }
}

fn collect(pairs: Vec<(String, String)>) -> (r: KafkaProperties)
    ensures
        r.view() == collect_pairs(pair_views(pairs@)),
        distinct_keys(r.view()),
{
    let ghost p = pair_views(pairs@);
    let mut r = KafkaProperties { props: Vec::new() };
    let mut i: usize = 0;
    proof {
        assert(p.take(0) =~= Seq::<PropertyView>::empty());
        assert(r.view() =~= Seq::<PropertyView>::empty());
    }
    while i < pairs.len()
        invariant
            i <= pairs@.len(),
            p == pair_views(pairs@),
            r.view() == collect_pairs(p.take(i as int)),
            distinct_keys(r.view()),
        decreases pairs@.len() - i,
    {
        proof {
            assert(p.take(i + 1).drop_last() =~= p.take(i as int));
            assert(p.take(i + 1).last() == p[i as int]);
        }
        r.set(pairs[i].0.clone(), pairs[i].1.clone());
        i = i + 1;
    }
    proof {
        assert(p.take(i as int) =~= p);
    }
    r
}

/// A fresh client identifier.
///
/// Whether `c` is a digit of Crockford's Base32 alphabet, in which ULIDs
/// are written.
pub open spec fn is_ulid_char(c: char) -> bool {
    ('0' <= c <= '9') || ('A' <= c <= 'Z' && c != 'I' && c != 'L' && c != 'O' && c != 'U')
}

/// Whether `s` is the text of a ULID: 26 digits of Crockford's Base32.
pub open spec fn is_ulid_text(s: Seq<char>) -> bool {
    s.len() == 26 && forall|i: int| 0 <= i < 26 ==> is_ulid_char(#[trigger] s[i])
}

/// A fresh identifier.
///
/// Trusted: calls `ulid::Ulid::generate` and its `to_string`, which writes
/// the 26 digits of the identifier in Crockford's Base32 alphabet. Which
/// identifier comes back depends on the time and on chance, and is not
/// stated.
#[verifier::external_body]
fn new_ulid() -> (r: String)
    ensures
        is_ulid_text(r@),
{
    ulid::Ulid::generate().to_string()
}

/// Whether `p` holds the consumer defaults over the collected `pairs`,
/// with the generated client identifier `client_id` when none was given.
pub open spec fn consumer_defaults(pairs: Seq<PropertyView>, client_id: Seq<char>) -> Seq<PropertyView> {
    let p0 = collect_pairs(pairs);
    let p1 = with_default(p0, "group.id"@, "kbridge"@);
    let p2 = with_default(p1, "client.id"@, client_id);
    let p3 = with_default(p2, "fetch.queue.backoff.ms"@, decimal(DEFAULT_FETCH_QUEUE_BACKOFF_MS as int));
    let p4 = with_default(p3, "queued.min.messages"@, decimal(DEFAULT_QUEUED_MIN_MESSAGES as int));
    let p5 = with_default(p4, "queued.max.messages.kbytes"@, decimal(DEFAULT_QUEUED_MAX_MESSAGES_KBYTES as int));
    let p6 = with_default(p5, "fetch.message.max.bytes"@, decimal(DEFAULT_FETCH_MESSAGE_MAX_BYTES as int));
    let p7 = with_default(p6, "enable.auto.commit"@, "false"@);
    set_value(p7, "auto.offset.reset"@, "smallest"@)
}

/// The producer properties over the collected `pairs`.
pub open spec fn producer_defaults(pairs: Seq<PropertyView>) -> Seq<PropertyView> {
    let p0 = without_key(collect_pairs(pairs), "group.id"@);
    let p1 = with_default(p0, "acks"@, "all"@);
    let p2 = with_default(p1, "allow.auto.create.topics"@, "false"@);
    with_default(p2, "queue.buffering.max.kbytes"@, decimal(DEFAULT_QUEUE_BUFFERING_MAX_KBYTES as int))
}

impl KafkaConsumerProperties {
    /// Consumer properties from the given pairs (a later pair for a key
    /// replacing an earlier one), with defaults for the group, a client
    /// identifier `kbridge-<ulid>`, fetch and queue sizes, and disabled
    /// auto commit; offsets reset to the smallest available one.
    pub fn from_iter(pairs: Vec<(String, String)>) -> (r: Self)
        ensures
            distinct_keys(r@),
            exists|id: Seq<char>|
                is_ulid_text(id) && r@ == consumer_defaults(pair_views(pairs@), "kbridge-"@ + id),
    {
        let mut props = collect(pairs);
        props.set_default("group.id", String::from_str("kbridge"));
        let mut client_id = String::from_str("kbridge-");
        let id = new_ulid();
        client_id.append(id.as_str());
        props.set_default("client.id", client_id);
        props.set_default("fetch.queue.backoff.ms", format_i64(DEFAULT_FETCH_QUEUE_BACKOFF_MS as i64));
        props.set_default("queued.min.messages", format_i64(DEFAULT_QUEUED_MIN_MESSAGES as i64));
        props.set_default("queued.max.messages.kbytes", format_i64(DEFAULT_QUEUED_MAX_MESSAGES_KBYTES as i64));
        props.set_default("fetch.message.max.bytes", format_i64(DEFAULT_FETCH_MESSAGE_MAX_BYTES as i64));
        props.set_default("enable.auto.commit", String::from_str("false"));
        // When we request offsets that don't exist, seek to the first available offset.
        props.set(String::from_str("auto.offset.reset"), String::from_str("smallest"));
        let r = KafkaConsumerProperties { inner: props };
        proof {
            assert(r@ == consumer_defaults(pair_views(pairs@), "kbridge-"@ + id@));
        }
        r
    }

    /// Sets a property, replacing an earlier value.
    pub fn insert(&mut self, key: &str, val: &str) -> (r: bool)
        ensures
            r,
            final(self)@ == set_value(old(self)@, key@, val@),
            distinct_keys(old(self)@) ==> distinct_keys(final(self)@),
    {
        self.inner.set(key.to_owned(), val.to_owned());
        true
    }

    /// The value of a property.
    pub fn get(&self, key: &str) -> (r: Option<&str>)
        ensures
            match value_of(self@, key@) {
                Some(v) => r matches Some(x) && x@ == v,
                None => r is None,
            },
    {
        self.inner.get(key)
    }

    /// The properties, in order.
    pub fn entries(&self) -> (r: Vec<(String, String)>)
        ensures
            pair_views(r@) == self@,
    {
        self.inner.entries()
    }

    /// The properties with the values of sensitive keys replaced by
    /// `REDACTED`, for display.
    pub fn redacted_entries(&self) -> (r: Vec<(String, String)>)
        ensures
            pair_views(r@) == redacted(self@),
    {
        redact(&self.inner)
    }

    /// The properties as their `Debug` text shows them, ordered by key,
    /// sensitive values shown as `REDACTED`.
    pub fn debug_string(&self) -> (r: String)
        ensures
            r@ == properties_debug_text(self@),
    {
        self.inner.debug_string()
    }
}

fn copy_pairs(pairs: &Vec<(String, String)>) -> (r: Vec<(String, String)>)
    ensures
        pair_views(r@) == pair_views(pairs@),
{
    let mut r: Vec<(String, String)> = Vec::new();
    let mut i: usize = 0;
    while i < pairs.len()
        invariant
            i <= pairs@.len(),
            pair_views(r@) == pair_views(pairs@).take(i as int),
        decreases pairs@.len() - i,
    {
        let ghost before = pair_views(r@);
        r.push((pairs[i].0.clone(), pairs[i].1.clone()));
        proof {
            assert(pair_views(r@) =~= before.push(pair_views(pairs@)[i as int]));
            assert(pair_views(pairs@).take(i + 1) =~= pair_views(pairs@).take(i as int).push(
                pair_views(pairs@)[i as int],
            ));
        }
        i = i + 1;
    }
    proof {
        assert(pair_views(pairs@).take(i as int) =~= pair_views(pairs@));
    }
    r
}

/// The properties with the values of masked keys replaced by `REDACTED`.
pub open spec fn redacted(p: Seq<PropertyView>) -> Seq<PropertyView> {
    p.map_values(|e: PropertyView| if is_masked(e.0) { (e.0, "REDACTED"@) } else { e })
}

fn masked(key: &str) -> (r: bool)
    ensures
        r == is_masked(key@),
{
    let names = [
        "ssl.key.password",
        "ssl.key.pem",
        "ssl_key",
        "ssl.ca.pem",
        "ssl_ca",
        "ssl.keystore.password",
        "sasl.password",
        "sasl.username",
        "sasl.oauthbearer.client.secret",
    ];
    compare_str(key, names[0]) == Cmp::Equal || compare_str(key, names[1]) == Cmp::Equal
        || compare_str(key, names[2]) == Cmp::Equal || compare_str(key, names[3]) == Cmp::Equal
        || compare_str(key, names[4]) == Cmp::Equal || compare_str(key, names[5]) == Cmp::Equal
        || compare_str(key, names[6]) == Cmp::Equal || compare_str(key, names[7]) == Cmp::Equal
        || compare_str(key, names[8]) == Cmp::Equal
}

fn redact(p: &KafkaProperties) -> (r: Vec<(String, String)>)
    ensures
        pair_views(r@) == redacted(p.view()),
{
    let ghost s = p.view();
    let mut r: Vec<(String, String)> = Vec::new();
    let mut i: usize = 0;
    while i < p.props.len()
        invariant
            i <= p.props@.len(),
            s == p.view(),
            pair_views(r@) == redacted(s.take(i as int)),
        decreases p.props@.len() - i,
    {
        let key = p.props[i].0.clone();
        let value = if masked(key.as_str()) { String::from_str("REDACTED") } else { p.props[i].1.clone() };
        let ghost before = pair_views(r@);
        let ghost kv = (key@, value@);
        r.push((key, value));
        proof {
            assert(pair_views(r@) =~= before.push(kv));
            assert(s.take(i + 1) =~= s.take(i as int).push(s[i as int]));
            assert(redacted(s.take(i + 1)) =~= redacted(s.take(i as int)).push(kv));
        }
        i = i + 1;
    }
    proof {
        assert(s.take(i as int) =~= s);
    }
    r
}

/// `s` with `x` inserted after the last pair whose key is not greater
/// than the key of `x`, searching from the end.
pub open spec fn insert_by_key(s: Seq<PropertyView>, x: PropertyView) -> Seq<PropertyView>
    decreases s.len(),
{
    if s.len() == 0 {
        seq![x]
    } else if str_lt(x.0, s.last().0) {
        insert_by_key(s.drop_last(), x).push(s.last())
    } else {
        s.push(x)
    }
}

/// The pairs ordered by key, as a map keyed by strings walks them.
pub open spec fn sort_by_key(s: Seq<PropertyView>) -> Seq<PropertyView>
    decreases s.len(),
{
    if s.len() == 0 {
        Seq::empty()
    } else {
        insert_by_key(sort_by_key(s.drop_last()), s.last())
    }
}

/// The text of a string as Rust's `Debug` formatting shows it: quoted,
/// with special characters escaped.
pub uninterp spec fn str_debug_text(s: Seq<char>) -> Seq<char>;

/// The `Debug` text of `s`.
///
/// Trusted: calls `format!("{:?}", s)`, a function of `s` alone, named
/// `str_debug_text`.
#[verifier::external_body]
fn str_debug_string(s: &str) -> (r: String)
    ensures
        r@ == str_debug_text(s@),
{
    format!("{:?}", s)
}

/// A property as a field of a `Debug` struct: `key: "value"`.
pub open spec fn field_text(e: PropertyView) -> Seq<char> {
    e.0 + ": "@ + str_debug_text(e.1)
}

/// The fields, separated by `, `.
pub open spec fn join_fields(s: Seq<PropertyView>) -> Seq<char>
    decreases s.len(),
{
    if s.len() == 0 {
        Seq::empty()
    } else if s.len() == 1 {
        field_text(s[0])
    } else {
        join_fields(s.drop_last()) + ", "@ + field_text(s.last())
    }
}

/// The `Debug` text of properties: `KafkaProperties { key: "value", .. }`
/// over the pairs ordered by key, sensitive values shown as `REDACTED`;
/// `KafkaProperties` alone when there are none.
pub open spec fn properties_debug_text(p: Seq<PropertyView>) -> Seq<char> {
    let fields = sort_by_key(redacted(p));
    if fields.len() == 0 {
        "KafkaProperties"@
    } else {
        "KafkaProperties"@ + " { "@ + join_fields(fields) + " }"@
    }
}

proof fn lemma_insert_by_key_at(s: Seq<PropertyView>, x: PropertyView, j: int)
    requires
        0 <= j <= s.len(),
        forall|i: int| j <= i < s.len() ==> str_lt(x.0, #[trigger] s[i].0),
        j > 0 ==> !str_lt(x.0, s[j - 1].0),
    ensures
        insert_by_key(s, x) == s.take(j).push(x) + s.skip(j),
    decreases s.len(),
{
    if s.len() == j {
        assert(s.skip(j) =~= Seq::<PropertyView>::empty());
        assert(s.take(j) =~= s);
        if j == 0 {
            assert(s.take(0).push(x) =~= seq![x]);
        }
        assert(s.take(j).push(x) + s.skip(j) =~= s.push(x));
    } else {
        let t = s.drop_last();
        assert forall|i: int| j <= i < t.len() implies str_lt(x.0, #[trigger] t[i].0) by {
            assert(t[i] == s[i]);
        }
        if j > 0 {
            assert(t[j - 1] == s[j - 1]);
        }
        lemma_insert_by_key_at(t, x, j);
        assert(str_lt(x.0, s.last().0));
        assert(t.take(j) =~= s.take(j));
        assert(t.skip(j).push(s.last()) =~= s.skip(j));
        assert((t.take(j).push(x) + t.skip(j)).push(s.last()) =~= s.take(j).push(x) + s.skip(j));
    }
}

/// The pairs ordered by key.
fn sort_pairs_by_key(pairs: Vec<(String, String)>) -> (r: Vec<(String, String)>)
    ensures
        pair_views(r@) == sort_by_key(pair_views(pairs@)),
{
    let ghost input = pair_views(pairs@);
    let mut sorted: Vec<(String, String)> = Vec::new();
    let mut n: usize = 0;
    proof {
        assert(input.take(0) =~= Seq::<PropertyView>::empty());
        assert(pair_views(sorted@) =~= Seq::<PropertyView>::empty());
    }
    while n < pairs.len()
        invariant
            n <= pairs@.len(),
            input == pair_views(pairs@),
            pair_views(sorted@) == sort_by_key(input.take(n as int)),
        decreases pairs@.len() - n,
    {
        let x = (pairs[n].0.clone(), pairs[n].1.clone());
        let ghost xv = (x.0@, x.1@);
        proof {
            assert(xv == input[n as int]);
            assert(input.take(n + 1).drop_last() =~= input.take(n as int));
            assert(input.take(n + 1).last() == xv);
        }
        let ghost sv = pair_views(sorted@);
        let mut j: usize = sorted.len();
        while j > 0 && compare_str(x.0.as_str(), sorted[j - 1].0.as_str()) == Cmp::Less
            invariant
                j <= sorted@.len(),
                sv == pair_views(sorted@),
                xv.0 == x.0@,
                forall|i: int| j <= i < sv.len() ==> str_lt(xv.0, #[trigger] sv[i].0),
            decreases j,
        {
            proof {
                assert(sv[j - 1] == (sorted@[j - 1].0@, sorted@[j - 1].1@));
            }
            j = j - 1;
        }
        proof {
            if j > 0 {
                assert(sv[j - 1] == (sorted@[j - 1].0@, sorted@[j - 1].1@));
            }
            lemma_insert_by_key_at(sv, xv, j as int);
        }
        let ghost before = sorted@;
        sorted.insert(j, x);
        proof {
            assert(sorted@ =~= before.take(j as int).push(x) + before.skip(j as int));
            assert(pair_views(sorted@) =~= sv.take(j as int).push(xv) + sv.skip(j as int));
        }
        n = n + 1;
    }
    proof {
        assert(input.take(n as int) =~= input);
    }
    sorted
}

impl KafkaProperties {
    /// The `Debug` text of the properties, sensitive values redacted.
    pub(crate) fn debug_string(&self) -> (r: String)
        ensures
            r@ == properties_debug_text(self.view()),
    {
        let fields = sort_pairs_by_key(redact(self));
        let ghost f = pair_views(fields@);
        let mut r = String::from_str("KafkaProperties");
        if fields.len() == 0 {
            return r;
        }
        r.append(" { ");
        r.append(fields[0].0.as_str());
        r.append(": ");
        let v = str_debug_string(fields[0].1.as_str());
        r.append(v.as_str());
        proof {
            assert(f.take(1).len() == 1);
            assert(f.take(1)[0] == f[0]);
            assert(r@ =~= "KafkaProperties"@ + " { "@ + join_fields(f.take(1)));
        }
        let mut i: usize = 1;
        while i < fields.len()
            invariant
                1 <= i <= fields@.len(),
                f == pair_views(fields@),
                r@ == "KafkaProperties"@ + " { "@ + join_fields(f.take(i as int)),
            decreases fields@.len() - i,
        {
            let ghost before = r@;
            r.append(", ");
            r.append(fields[i].0.as_str());
            r.append(": ");
            let v = str_debug_string(fields[i].1.as_str());
            r.append(v.as_str());
            proof {
                assert(f.take(i + 1).drop_last() =~= f.take(i as int));
                assert(f.take(i + 1).last() == f[i as int]);
                assert(r@ =~= before + ", "@ + field_text(f[i as int]));
                assert(r@ =~= "KafkaProperties"@ + " { "@ + join_fields(f.take(i + 1)));
            }
            i = i + 1;
        }
        r.append(" }");
        proof {
            assert(f.take(i as int) =~= f);
        }
        r
    }
}

impl KafkaProducerProperties {
    /// Producer properties from the given pairs (a later pair for a key
    /// replacing an earlier one), without a consumer group, with defaults
    /// for acknowledgements, topic creation and buffering.
    pub fn from_iter(pairs: Vec<(String, String)>) -> (r: Self)
        ensures
            distinct_keys(r@),
            r@ == producer_defaults(pair_views(pairs@)),
    {
        let mut props = collect(pairs);
        props.remove("group.id");
        props.set_default("acks", String::from_str("all"));
        props.set_default("allow.auto.create.topics", String::from_str("false"));
        props.set_default("queue.buffering.max.kbytes", format_i64(DEFAULT_QUEUE_BUFFERING_MAX_KBYTES as i64));
        KafkaProducerProperties { inner: props }
    }

    /// Sets a property, replacing an earlier value; the consumer group is
    /// refused.
    pub fn insert(&mut self, key: &str, val: &str) -> (r: bool)
        ensures
            r == (key@ != "group.id"@),
            final(self)@ == if r { set_value(old(self)@, key@, val@) } else { old(self)@ },
            distinct_keys(old(self)@) ==> distinct_keys(final(self)@),
    {
        if compare_str(key, "group.id") == Cmp::Equal {
            false
        } else {
            self.inner.set(key.to_owned(), val.to_owned());
            true
        }
    }

    /// Sets a property that is not set yet; the consumer group is refused.
    pub fn insert_if_not_set(&mut self, key: &str, val: &str) -> (r: bool)
        ensures
            r == (value_of(old(self)@, key@) is None && key@ != "group.id"@),
            final(self)@ == if r { set_value(old(self)@, key@, val@) } else { old(self)@ },
            distinct_keys(old(self)@) ==> distinct_keys(final(self)@),
    {
        if self.inner.contains_key(key) {
            false
        } else if compare_str(key, "group.id") == Cmp::Equal {
            false
        } else {
            self.inner.set(key.to_owned(), val.to_owned());
            true
        }
    }

    /// The properties, in order.
    pub fn entries(&self) -> (r: Vec<(String, String)>)
        ensures
            pair_views(r@) == self@,
    {
        self.inner.entries()
    }

    /// The properties with the values of sensitive keys replaced by
    /// `REDACTED`, for display.
    pub fn redacted_entries(&self) -> (r: Vec<(String, String)>)
        ensures
            pair_views(r@) == redacted(self@),
    {
        redact(&self.inner)
    }

    /// The properties as their `Debug` text shows them, ordered by key,
    /// sensitive values shown as `REDACTED`.
    pub fn debug_string(&self) -> (r: String)
        ensures
            r@ == properties_debug_text(self@),
    {
        self.inner.debug_string()
    }
}

proof fn lemma_without_key(p: Seq<PropertyView>, key: Seq<char>)
    ensures
        value_of(without_key(p, key), key) is None,
{
    let f = without_key(p, key);
    assert forall|j: int| 0 <= j < f.len() implies #[trigger] f[j].0 != key by {
        p.lemma_filter_pred(key_differs(key), j);
    }
    lemma_first_key_index_none(f, key);
}

proof fn lemma_with_default(p: Seq<PropertyView>, key: Seq<char>, value: Seq<char>)
    ensures
        value_of(with_default(p, key, value), key) == match value_of(p, key) {
            Some(v) => Some(v),
            None => Some(value),
        },
        forall|k2: Seq<char>| k2 != key ==> #[trigger] value_of(with_default(p, key, value), k2) == value_of(p, k2),
{
    lemma_set_value(p, key, value);
}

/// A producer never holds a consumer group: the producer properties built
/// from any pairs have no `group.id`, and setting any other key keeps it so.
pub proof fn law_producer_has_no_group_id(pairs: Seq<PropertyView>, key: Seq<char>, value: Seq<char>)
    ensures
        value_of(producer_defaults(pairs), "group.id"@) is None,
        forall|p: Seq<PropertyView>| value_of(p, "group.id"@) is None && key != "group.id"@
            ==> #[trigger] value_of(set_value(p, key, value), "group.id"@) is None,
{
    let g = "group.id"@;
    let p0 = without_key(collect_pairs(pairs), g);
    lemma_without_key(collect_pairs(pairs), g);
    let p1 = with_default(p0, "acks"@, "all"@);
    let p2 = with_default(p1, "allow.auto.create.topics"@, "false"@);
    reveal_strlit("group.id");
    reveal_strlit("acks");
    reveal_strlit("allow.auto.create.topics");
    reveal_strlit("queue.buffering.max.kbytes");
    assert("acks"@ != g) by {
        assert("acks"@.len() != g.len());
    }
    assert("allow.auto.create.topics"@ != g) by {
        assert("allow.auto.create.topics"@.len() != g.len());
    }
    assert("queue.buffering.max.kbytes"@ != g) by {
        assert("queue.buffering.max.kbytes"@.len() != g.len());
    }
    lemma_with_default(p0, "acks"@, "all"@);
    lemma_with_default(p1, "allow.auto.create.topics"@, "false"@);
    lemma_with_default(p2, "queue.buffering.max.kbytes"@, decimal(DEFAULT_QUEUE_BUFFERING_MAX_KBYTES as int));
    assert forall|p: Seq<PropertyView>| value_of(p, "group.id"@) is None && key != "group.id"@
        implies #[trigger] value_of(set_value(p, key, value), "group.id"@) is None by {
        lemma_set_value(p, key, value);
    }
}

/// A property that is set is read back, and setting it changes no other
/// property.
pub proof fn law_set_then_get(p: Seq<PropertyView>, key: Seq<char>, value: Seq<char>, other: Seq<char>)
    requires
        other != key,
    ensures
        value_of(set_value(p, key, value), key) == Some(value),
        value_of(set_value(p, key, value), other) == value_of(p, other),
{
    lemma_set_value(p, key, value);
}

/// Consumers start from the first available offset when a requested offset
/// does not exist, whatever the given properties say, and never commit
/// offsets on their own unless told to.
pub proof fn law_consumer_defaults(pairs: Seq<PropertyView>, client_id: Seq<char>)
    ensures
        value_of(consumer_defaults(pairs, client_id), "auto.offset.reset"@) == Some("smallest"@),
        value_of(consumer_defaults(pairs, client_id), "enable.auto.commit"@) == match value_of(
            collect_pairs(pairs),
            "enable.auto.commit"@,
        ) {
            Some(v) => Some(v),
            None => Some("false"@),
        },
        value_of(consumer_defaults(pairs, client_id), "group.id"@) == match value_of(
            collect_pairs(pairs),
            "group.id"@,
        ) {
            Some(v) => Some(v),
            None => Some("kbridge"@),
        },
{
    let p0 = collect_pairs(pairs);
    let p1 = with_default(p0, "group.id"@, "kbridge"@);
    let p2 = with_default(p1, "client.id"@, client_id);
    let p3 = with_default(p2, "fetch.queue.backoff.ms"@, decimal(DEFAULT_FETCH_QUEUE_BACKOFF_MS as int));
    let p4 = with_default(p3, "queued.min.messages"@, decimal(DEFAULT_QUEUED_MIN_MESSAGES as int));
    let p5 = with_default(p4, "queued.max.messages.kbytes"@, decimal(DEFAULT_QUEUED_MAX_MESSAGES_KBYTES as int));
    let p6 = with_default(p5, "fetch.message.max.bytes"@, decimal(DEFAULT_FETCH_MESSAGE_MAX_BYTES as int));
    let p7 = with_default(p6, "enable.auto.commit"@, "false"@);
    reveal_strlit("group.id");
    reveal_strlit("client.id");
    reveal_strlit("fetch.queue.backoff.ms");
    reveal_strlit("queued.min.messages");
    reveal_strlit("queued.max.messages.kbytes");
    reveal_strlit("fetch.message.max.bytes");
    reveal_strlit("enable.auto.commit");
    reveal_strlit("auto.offset.reset");
    lemma_with_default(p0, "group.id"@, "kbridge"@);
    lemma_with_default(p1, "client.id"@, client_id);
    lemma_with_default(p2, "fetch.queue.backoff.ms"@, decimal(DEFAULT_FETCH_QUEUE_BACKOFF_MS as int));
    lemma_with_default(p3, "queued.min.messages"@, decimal(DEFAULT_QUEUED_MIN_MESSAGES as int));
    lemma_with_default(p4, "queued.max.messages.kbytes"@, decimal(DEFAULT_QUEUED_MAX_MESSAGES_KBYTES as int));
    lemma_with_default(p5, "fetch.message.max.bytes"@, decimal(DEFAULT_FETCH_MESSAGE_MAX_BYTES as int));
    lemma_with_default(p6, "enable.auto.commit"@, "false"@);
    lemma_set_value(p7, "auto.offset.reset"@, "smallest"@);
    assert("group.id"@ != "client.id"@) by { assert("group.id"@[0] != "client.id"@[0]); }
    assert("group.id"@ != "fetch.queue.backoff.ms"@) by { assert("group.id"@[0] != "fetch.queue.backoff.ms"@[0]); }
    assert("group.id"@ != "queued.min.messages"@) by { assert("group.id"@[0] != "queued.min.messages"@[0]); }
    assert("group.id"@ != "queued.max.messages.kbytes"@) by { assert("group.id"@[0] != "queued.max.messages.kbytes"@[0]); }
    assert("group.id"@ != "fetch.message.max.bytes"@) by { assert("group.id"@[0] != "fetch.message.max.bytes"@[0]); }
    assert("group.id"@ != "enable.auto.commit"@) by { assert("group.id"@[0] != "enable.auto.commit"@[0]); }
    assert("group.id"@ != "auto.offset.reset"@) by { assert("group.id"@[0] != "auto.offset.reset"@[0]); }
    assert("enable.auto.commit"@ != "group.id"@) by { assert("group.id"@[0] != "enable.auto.commit"@[0]); }
    assert("enable.auto.commit"@ != "client.id"@) by { assert("client.id"@[0] != "enable.auto.commit"@[0]); }
    assert("enable.auto.commit"@ != "fetch.queue.backoff.ms"@) by { assert("fetch.queue.backoff.ms"@[0] != "enable.auto.commit"@[0]); }
    assert("enable.auto.commit"@ != "queued.min.messages"@) by { assert("queued.min.messages"@[0] != "enable.auto.commit"@[0]); }
    assert("enable.auto.commit"@ != "queued.max.messages.kbytes"@) by { assert("queued.max.messages.kbytes"@[0] != "enable.auto.commit"@[0]); }
    assert("enable.auto.commit"@ != "fetch.message.max.bytes"@) by { assert("fetch.message.max.bytes"@[0] != "enable.auto.commit"@[0]); }
    assert("enable.auto.commit"@ != "auto.offset.reset"@) by { assert("auto.offset.reset"@[0] != "enable.auto.commit"@[0]); }
}

/// The values of the sensitive properties are never shown: in the redacted
/// properties, each masked key has the value `REDACTED`, every other
/// property is unchanged, and the keys stay in place.
pub proof fn law_redaction_hides_secrets(p: Seq<PropertyView>)
    ensures
        redacted(p).len() == p.len(),
        forall|i: int| 0 <= i < p.len() ==> (#[trigger] redacted(p)[i]).0 == p[i].0,
        forall|i: int| 0 <= i < p.len() && is_masked(p[i].0) ==> (#[trigger] redacted(p)[i]).1 == "REDACTED"@,
        forall|i: int| 0 <= i < p.len() && !is_masked(p[i].0) ==> #[trigger] redacted(p)[i] == p[i],
{
}

proof fn lemma_insert_by_key_sorted(s: Seq<PropertyView>, x: PropertyView)
    requires
        forall|i: int, j: int| 0 <= i < j < s.len() ==> str_lt(#[trigger] s[i].0, #[trigger] s[j].0),
        forall|i: int| 0 <= i < s.len() ==> #[trigger] s[i].0 != x.0,
    ensures
        insert_by_key(s, x).len() == s.len() + 1,
        forall|i: int, j: int|
            0 <= i < j < insert_by_key(s, x).len() ==> str_lt(
                #[trigger] insert_by_key(s, x)[i].0,
                #[trigger] insert_by_key(s, x)[j].0,
            ),
        forall|e: PropertyView| #[trigger] insert_by_key(s, x).contains(e) <==> (s.contains(e) || e == x),
    decreases s.len(),
{
    if s.len() == 0 {
        assert(seq![x][0] == x);
        assert forall|e: PropertyView| #[trigger] insert_by_key(s, x).contains(e) <==> (s.contains(e) || e == x) by {
            if insert_by_key(s, x).contains(e) {
                let k = choose|k: int| 0 <= k < 1 && seq![x][k] == e;
            }
        }
    } else if str_lt(x.0, s.last().0) {
        let t = s.drop_last();
        let last = s.last();
        lemma_insert_by_key_sorted(t, x);
        let u = insert_by_key(t, x);
        assert forall|k: int| 0 <= k < u.len() implies str_lt(#[trigger] u[k].0, last.0) by {
            assert(u.contains(u[k]));
            if u[k] != x {
                assert(t.contains(u[k]));
                let m = choose|m: int| 0 <= m < t.len() && t[m] == u[k];
                assert(s[m] == t[m]);
            }
        }
        assert forall|e: PropertyView| #[trigger] u.push(last).contains(e) <==> (s.contains(e) || e == x) by {
            if u.push(last).contains(e) {
                let k = choose|k: int| 0 <= k < u.len() + 1 && u.push(last)[k] == e;
                if k < u.len() {
                    assert(u.contains(u[k]));
                    if u[k] != x {
                        let m = choose|m: int| 0 <= m < t.len() && t[m] == u[k];
                        assert(s[m] == e);
                    }
                } else {
                    assert(s[s.len() - 1] == e);
                }
            }
            if s.contains(e) {
                let m = choose|m: int| 0 <= m < s.len() && s[m] == e;
                if m < s.len() - 1 {
                    assert(t[m] == e);
                    assert(t.contains(e));
                    assert(u.contains(e));
                    let k = choose|k: int| 0 <= k < u.len() && u[k] == e;
                    assert(u.push(last)[k] == e);
                } else {
                    assert(u.push(last)[u.len() as int] == e);
                }
            }
            if e == x {
                assert(u.contains(x));
                let k = choose|k: int| 0 <= k < u.len() && u[k] == x;
                assert(u.push(last)[k] == x);
            }
        }
    } else {
        let last = s.last();
        lemma_str_order(x.0, last.0, x.0);
        assert(last.0 != x.0);
        assert forall|k: int| 0 <= k < s.len() implies str_lt(#[trigger] s[k].0, x.0) by {
            lemma_str_order(s[k].0, last.0, x.0);
        }
        assert forall|e: PropertyView| #[trigger] s.push(x).contains(e) <==> (s.contains(e) || e == x) by {
            if s.push(x).contains(e) {
                let k = choose|k: int| 0 <= k < s.len() + 1 && s.push(x)[k] == e;
                if k < s.len() {
                    assert(s[k] == e);
                }
            }
            if s.contains(e) {
                let m = choose|m: int| 0 <= m < s.len() && s[m] == e;
                assert(s.push(x)[m] == e);
            }
            if e == x {
                assert(s.push(x)[s.len() as int] == x);
            }
        }
    }
}

/// The fields of the `Debug` text come in the order of a map keyed by
/// strings: for properties with distinct keys, `sort_by_key` holds each
/// pair once, and no other, with keys strictly increasing in the byte
/// order of strings.
pub proof fn law_debug_fields_follow_key_order(p: Seq<PropertyView>)
    requires
        distinct_keys(p),
    ensures
        sort_by_key(p).len() == p.len(),
        forall|i: int, j: int|
            0 <= i < j < sort_by_key(p).len() ==> str_lt(
                #[trigger] sort_by_key(p)[i].0,
                #[trigger] sort_by_key(p)[j].0,
            ),
        forall|e: PropertyView| #[trigger] sort_by_key(p).contains(e) <==> p.contains(e),
    decreases p.len(),
{
    if p.len() > 0 {
        let t = p.drop_last();
        let x = p.last();
        assert forall|i: int, j: int| 0 <= i < j < t.len() implies #[trigger] t[i].0 != #[trigger] t[j].0 by {
            assert(p[i] == t[i] && p[j] == t[j]);
        }
        law_debug_fields_follow_key_order(t);
        let s = sort_by_key(t);
        assert forall|i: int| 0 <= i < s.len() implies #[trigger] s[i].0 != x.0 by {
            assert(s.contains(s[i]));
            let m = choose|m: int| 0 <= m < t.len() && t[m] == s[i];
            assert(p[m] == t[m]);
            assert(p[p.len() - 1] == x);
        }
        lemma_insert_by_key_sorted(s, x);
        assert forall|e: PropertyView| #[trigger] sort_by_key(p).contains(e) <==> p.contains(e) by {
            if p.contains(e) {
                let m = choose|m: int| 0 <= m < p.len() && p[m] == e;
                if m < p.len() - 1 {
                    assert(t[m] == e);
                    assert(t.contains(e));
                }
            }
            if t.contains(e) {
                let m = choose|m: int| 0 <= m < t.len() && t[m] == e;
                assert(p[m] == e);
            }
            if e == x {
                assert(p[p.len() - 1] == e);
            }
        }
    }
}

/// The value of the last pair with key `k`.
pub open spec fn last_value(pairs: Seq<PropertyView>, k: Seq<char>) -> Option<Seq<char>>
    decreases pairs.len(),
{
    if pairs.len() == 0 {
        None
    } else if pairs.last().0 == k {
        Some(pairs.last().1)
    } else {
        last_value(pairs.drop_last(), k)
    }
}

/// Of pairs set in turn, the last one for a key gives its value; a key that
/// no pair sets keeps its value.
pub proof fn law_later_pairs_win(p: Seq<PropertyView>, pairs: Seq<PropertyView>, k: Seq<char>)
    ensures
        value_of(extend_pairs(p, pairs), k) == match last_value(pairs, k) {
            Some(v) => Some(v),
            None => value_of(p, k),
        },
    decreases pairs.len(),
{
    if pairs.len() > 0 {
        law_later_pairs_win(p, pairs.drop_last(), k);
        lemma_set_value(extend_pairs(p, pairs.drop_last()), pairs.last().0, pairs.last().1);
    }
}

} // verus!

//! Configuration of the bridge client: the Kafka properties it connects
//! with, and where it reads consumer group offsets from.

use vstd::prelude::*;
use vstd::std_specs::cmp::PartialEqSpecImpl;
use vstd::std_specs::convert::FromSpecImpl;
use vstd::string::StringExecFns;

use crate::keyed::{distinct_keys, value_of};
use crate::properties::{
    consumer_defaults, extend_pairs, is_ulid_text, pair_views, KafkaConsumerProperties, KafkaProperties,
    PropertyView,
};
use crate::text::{compare_str, Cmp};

verus! {

/// The source to read consumer group offsets from.
#[derive(Debug, Clone)]
pub enum OffsetSource {
    /// Query the committed consumer group offsets from the cluster itself.
    GroupCoordinator,
    /// Read offsets from a restored copy of the internal `__consumer_offsets`
    /// topic with the given name.
    Topic(String),
}

impl PartialEq for OffsetSource {
    fn eq(&self, other: &Self) -> (r: bool) {
        match (self, other) {
            (OffsetSource::GroupCoordinator, OffsetSource::GroupCoordinator) => true,
            (OffsetSource::Topic(a), OffsetSource::Topic(b)) => compare_str(a.as_str(), b.as_str())
                == Cmp::Equal,
            _ => false,
        }
    }
}

impl PartialEqSpecImpl for OffsetSource {
    open spec fn obeys_eq_spec() -> bool {
        true
    }

    open spec fn eq_spec(&self, other: &Self) -> bool {
        match (self, other) {
            (OffsetSource::GroupCoordinator, OffsetSource::GroupCoordinator) => true,
            (OffsetSource::Topic(a), OffsetSource::Topic(b)) => a@ == b@,
            _ => false,
        }
    }
}

/// The property that names the brokers to connect to.
pub open spec fn bootstrap_key() -> Seq<char> {
    "bootstrap.servers"@
}

/// The configuration of a bridge client: Kafka properties with distinct keys.
pub struct KafkaBridgeConfig {
    properties: KafkaProperties,
}

impl KafkaBridgeConfig {
    #[verifier::type_invariant]
    spec fn keys_distinct(self) -> bool {
        distinct_keys(self.properties.view())
    }
}

impl Clone for KafkaBridgeConfig {
    fn clone(&self) -> (r: Self)
        ensures
            r@ == self@,
    {
        proof {
            use_type_invariant(self);
        }
        KafkaBridgeConfig { properties: self.properties.duplicate() }
    }
}

impl View for KafkaBridgeConfig {
    type V = Seq<PropertyView>;

    closed spec fn view(&self) -> Seq<PropertyView> {
        self.properties.view()
    }
}

impl KafkaBridgeConfig {
    /// A configuration that connects to `bootstrap_server` and sets nothing else.
    pub fn new(bootstrap_server: String) -> (r: Self)
        ensures
            r@ == seq![(bootstrap_key(), bootstrap_server@)],
            distinct_keys(r@),
    {
        let mut properties = KafkaProperties::empty();
        properties.set(String::from_str("bootstrap.servers"), bootstrap_server);
        proof {
            assert(properties.view() =~= seq![(bootstrap_key(), bootstrap_server@)]);
        }
        KafkaBridgeConfig { properties }
    }

    /// This configuration with `properties` set in turn, each replacing an
    /// earlier value of its key.
    pub fn set_properties(self, properties: Vec<(String, String)>) -> (r: Self)
        ensures
            r@ == extend_pairs(self@, pair_views(properties@)),
            distinct_keys(r@),
    {
        proof {
            use_type_invariant(&self);
        }
        let mut props = self.properties;
        props.extend(&properties);
        KafkaBridgeConfig { properties: props }
    }

    /// The brokers to connect to; `localhost:9092` when none is set.
    pub fn bootstrap_server(&self) -> (r: String)
        ensures
            r@ == match value_of(self@, bootstrap_key()) {
                Some(v) => v,
                None => "localhost:9092"@,
            },
    {
        match self.properties.get("bootstrap.servers") {
            Some(v) => v.to_owned(),
            None => String::from_str("localhost:9092"),
        }
    }

    /// The properties, in order.
    pub fn properties(&self) -> (r: Vec<(String, String)>)
        ensures
            pair_views(r@) == self@,
    {
        self.properties.entries()
    }

    /// Consumer properties from this configuration, with the consumer
    /// defaults for what it does not set.
    pub fn consumer_properties(&self) -> (r: KafkaConsumerProperties)
        ensures
            distinct_keys(r@),
            exists|id: Seq<char>| is_ulid_text(id) && r@ == consumer_defaults(self@, "kbridge-"@ + id),
    {
        KafkaConsumerProperties::from_iter(self.properties.entries())
    }
}

/// The bridge client, which connects with a configuration.
pub struct KafkaBridgeClient {
    config: KafkaBridgeConfig,
}

impl KafkaBridgeClient {
    /// The configuration the client connects with.
    pub fn config(&self) -> (r: &KafkaBridgeConfig)
        ensures
            r@ == self.config_view(),
    {
        &self.config
    }

    /// The properties of the configuration.
    pub closed spec fn config_view(&self) -> Seq<PropertyView> {
        self.config@
    }
}

impl From<KafkaBridgeConfig> for KafkaBridgeClient {
    fn from(config: KafkaBridgeConfig) -> (r: Self) {
        KafkaBridgeClient { config }
    }
}

impl FromSpecImpl<KafkaBridgeConfig> for KafkaBridgeClient {
    open spec fn obeys_from_spec() -> bool {
        true
    }

    closed spec fn from_spec(config: KafkaBridgeConfig) -> Self {
        KafkaBridgeClient { config }
    }
}

} // verus!

//! Consumer group offset migration between Kafka clusters: decoding of the
//! internal offsets topic, mapping of source offsets to target offsets,
//! and the bookkeeping around snapshots of consumer group offsets.

pub mod apply;
pub mod bytes;
pub mod calculate_new_offset;
pub mod cli;
pub mod client;
pub mod committed;
pub mod csv_import;
pub mod errors;
pub mod keyed;
pub mod message;
pub mod offsets_topic;
pub mod out_of_band;
pub mod partition;
pub mod properties;
pub mod record;
pub mod routing;
pub mod search;
pub mod subscriptions;
pub mod summary;
pub mod text;
pub mod transform;
pub mod watermarks;

//! Verified core of the Hermes usage monitor: metric records, the bounded
//! buffer that holds them before a batch write, the InfluxDB line-protocol
//! encoder, the parser for InfluxDB's annotated CSV answers, provider key
//! configuration, and the dashboard's number formatting.

pub mod error;
pub mod influx;
pub mod line_protocol;
pub mod providers;
pub mod storage;
pub mod text;
pub mod ui;
pub mod usage;

pub use error::DashboardError;
pub use usage::{RateLimitRecord, UsageRecord};
pub use vstd::hash_map::StringHashMap;

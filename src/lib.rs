//! In-process aggregation core of a metrics SDK: attribute values, attribute-set
//! identities, accumulators, counters and the meter / provider registries.

pub mod common;
pub mod attributes;
pub mod metricpoint;
pub mod metric;
pub mod counter;
pub mod meter;
pub mod meter_provider;

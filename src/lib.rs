//! Storage I/O latency engine: correlation of start and completion events,
//! sharded latency histograms merged on read, identity key codec, and
//! page-cache counters.

pub mod codec;
pub mod correlation;
pub mod counters;
pub mod events;
pub mod export;
pub mod histogram;
pub mod labels;

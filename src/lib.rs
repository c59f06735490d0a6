//! A log-structured merge key/value store: a sorted write buffer over levels
//! of immutable sorted runs, with bloom-filtered point reads, merged range
//! reads and cascading compaction.

pub mod data_type;
pub mod sorted;
pub mod buffer;
pub mod bloom_filter;
pub mod merge;
pub mod run;
pub mod level;
pub mod layers;
pub mod lsm;
pub mod helper;

//! A small value-mapping utility: given a numeric measurement and a known
//! maximum, select one associated payload from a user-configurable threshold
//! table. Three table shapes are supported: three fixed low/medium/high
//! slots, an ordered list of equal-width buckets, and an explicit map from
//! integer boundaries to payloads.

pub mod laws;
pub mod table;

pub use table::ThresholdTable;

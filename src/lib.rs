//! A triage engine for Windows event logs: batching of raw records, merging of
//! deserialized batches, channel routing, indicator patterns and detectors.

pub mod configs;
pub mod detection;
pub mod event;
pub mod patterns;

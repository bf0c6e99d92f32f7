//! Scheduler-behavior analyzer core: snapshot deltas, wakeup-edge
//! classification, run-slice percentile summaries, and a generic tabular
//! reporting engine.

pub mod events;
pub mod output;
pub mod procfs;
pub mod report;
pub mod slice;
pub mod snapshot;
pub mod text;
pub mod wakeup;

//! Supervision and output parsing for a storage-server statistics exporter.
//!
//! The library holds the decisions: which lines of the statistics tool's
//! output carry a sample, how samples accumulate into the published metrics,
//! how the tool is invoked, and when the restart policy gives up.
pub mod line;
pub mod metrics;
pub mod supervisor;

pub use line::{chars_of, extract, ExtractError, ParsedSample};
pub use metrics::{FeedError, MetricTotals};
pub use supervisor::{
    bind_address, on_interrupt, spawn_args, InterruptAction, RestartPolicy, SpawnError, Verdict,
};

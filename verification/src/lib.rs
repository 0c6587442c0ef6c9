//! Per-key minimum, mean and maximum of measurements held in a delimited text
//! buffer, one `key;value` pair per line.
//!
//! The buffer is cut into line-aligned partitions, each partition is tabulated
//! on its own, the partial tables are merged, and the merged table is rendered
//! as one sorted summary. Measurements are fixed-point numbers counted in
//! tenths, so every statistic is exact and does not depend on how the buffer
//! was cut or in which order the partial tables were merged.

pub mod laws;
pub mod number;
pub mod order;
pub mod partition;
pub mod pipeline;
pub mod record;
pub mod render;
pub mod report;
pub mod scan;
pub mod stats;
pub mod summary;
pub mod table;

pub use crate::partition::{partition, Partition};
pub use crate::pipeline::{aggregate, report, summarize, summarize_with};
pub use crate::record::{parse_line, Record};
pub use crate::render::{render, render_bytes};
pub use crate::report::{finalize, CityTemp};
pub use crate::stats::KeyAggregate;
pub use crate::table::{aggregate_partition, AggregateTable};

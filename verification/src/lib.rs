//! Chunked aggregation of `key;value` records: per-key minimum, mean and
//! maximum over a newline-delimited byte stream, computed chunk by chunk and
//! merged under a commutative rule. Values carry exactly one fractional
//! digit and are held as integer tenths throughout, so sums are exact and
//! merging gives the same result in every order.

pub mod aggregates;
pub mod decimal;
pub mod error;
pub mod lines;
pub mod merge;
pub mod model;
pub mod order;
pub mod pipeline;
pub mod present;
pub mod record;
pub mod scheduler;
pub mod splitter;
pub mod stats;
pub mod table;

pub use crate::aggregates::{compute_chunk, Aggregates};
pub use crate::decimal::fast_parse;
pub use crate::error::{ChunkError, CountOverflow, RecordFault};
pub use crate::merge::merge_results;
pub use crate::pipeline::aggregate_all;
pub use crate::present::{render_result, sorted_entries};
pub use crate::scheduler::{default_worker_limit, Scheduler, Step};
pub use crate::splitter::ChunkSplitter;
pub use crate::stats::Stats;

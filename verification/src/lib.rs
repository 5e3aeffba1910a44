//! Per-key minimum, mean and maximum of fixed-point measurements.
//!
//! A measurement file is a sequence of `key;value` lines, each value a decimal
//! with one fractional digit. Values are held as integers scaled by ten, so
//! that every statistic is exact integer arithmetic. One pass over the input
//! keeps a running statistic for each key; the report lists the keys in
//! ascending order, each with its least value, its mean and its greatest
//! value.

/// Why a run fails.
pub mod error;
/// Decoding and formatting of fixed-point values.
pub mod fixed_point;
/// The order of keys.
pub mod keys;
/// Splitting an input into lines.
pub mod lines;
/// The run over an input, from its bytes to the text of the report.
pub mod pipeline;
/// Parsing one line into a key and a value.
pub mod record;
/// Sum, count and mean of buffered values, by a scalar fold and by lanes.
pub mod reducer;
/// The rows of a report and their text.
pub mod report;
/// The running statistic of one key.
pub mod stats;
/// The aggregation table.
pub mod table;
/// What a table holds after a run of observations, as mathematics.
pub mod tally;

pub use error::Error;
pub use fixed_point::{decode_value, fmt_num};
pub use pipeline::run;
pub use reducer::{get_average, get_average_simd};
pub use report::Row;
pub use stats::City;
pub use table::Table;

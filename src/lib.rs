//! Aggregation of `key;value` measurement files into per-key minimum,
//! mean and maximum: a fixed-point decoder, a boundary-safe chunk reader,
//! a per-batch aggregator, a merge reducer and a sorted report formatter.

pub mod aggregate;
pub mod batch;
pub mod decode;
pub mod reader;
pub mod reduce;
pub mod report;
pub mod table;

pub use aggregate::Data;
pub use batch::{BatchError, process_batch};
pub use decode::{is_value, parse_i32, parse_scaled, split_line};
pub use reader::ChunkReader;
pub use reduce::{MergeError, merge_all, merge_into};
pub use report::{format_report, key_less, report, sorted_entries};
pub use table::Table;

//! A set-associative cache with least-recently-used replacement, replayed
//! against a trace of memory accesses to count hits, misses and evictions.

pub mod address;
pub mod cache;
pub mod replay;
pub mod set;
pub mod trace;

pub use address::calculate_index_and_tag;
pub use cache::Cache;
pub use replay::hits_misses_evictions_calc;
pub use set::{CacheLine, CacheSet};
pub use trace::{is_trace_line, parse_trace_line};

//! Grouped means over delimited text.
//!
//! The input is a byte sequence of `key;value` records, one per line. The
//! library plans line-aligned chunks over the bytes, scans each chunk into a
//! per-key `(sum, count)` aggregate, merges the aggregates, and reports one
//! line per key with the key's mean, in ascending byte order of the keys.
//! Values are read as fixed-point numbers in hundredths; fractional digits
//! beyond the second are ignored. Means are printed with two decimals,
//! rounded to the nearest hundredth, ties away from zero.

pub mod agg;
pub mod chunks;
pub mod parse;
pub mod records;
pub mod report;
pub mod run;

pub use agg::Aggregate;
pub use chunks::Chunk;
pub use chunks::find_next_newline;
pub use chunks::plan_chunks;
pub use parse::cheat_split_once;
pub use parse::parse_number;
pub use records::NL;
pub use report::report;
pub use run::ParseError;
pub use run::ParseErrorKind;
pub use run::run_on_bytes;
pub use run::scan_chunk;

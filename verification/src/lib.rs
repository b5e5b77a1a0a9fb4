//! Per-station temperature statistics over `name;temperature` records.
//!
//! Temperatures are fixed-point numbers with one fractional digit and are held
//! as integers in tenths of a degree.  The crate parses records, accumulates
//! minimum, maximum, sum and count per station, partitions byte regions at
//! record boundaries, merges partial results and renders the final report.
//!
//! - [`temperature`]: the text of a record and of a temperature, read and
//!   written without floating point.
//! - [`aggregation`]: the accumulator of one station, and its laws.
//! - [`lines`]: byte regions as sequences of lines.
//! - [`chunker`]: partitions of a region that split no record.
//! - [`tally`]: what a registry stands for, and the laws of scanning and
//!   merging.
//! - [`registry`]: the registry over a hash table; scanning a chunk, merging
//!   registries, listing the stations in order.
//! - [`sorter`]: the order of names, and sorting by name.
//! - [`report`]: the text of the report.
//! - [`ingest`]: rounds over a working buffer, and the report of a whole
//!   file, read at once or block by block.
//! - [`stations`]: the station names of a station file.

pub mod aggregation;
pub mod chunker;
pub mod ingest;
pub mod lines;
pub mod registry;
pub mod report;
pub mod sorter;
pub mod stations;
pub mod tally;
pub mod temperature;

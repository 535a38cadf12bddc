//! Per-key aggregate statistics (minimum, maximum, mean) over a large
//! newline-delimited byte stream, computed by splitting the stream into
//! fixed-size chunks, realigning each chunk to record boundaries, parsing
//! records into keys and fixed-point numeric values, aggregating per worker,
//! and merging worker-local results into one global map.
//!
//! The crate holds the chunking, alignment, parsing, aggregation and merging
//! logic; opening and reading the file, spawning workers and printing the
//! report are left to the surrounding program, which hands byte buffers in
//! and takes plain values back.

pub mod aggregate;
pub mod chunk;
pub mod distribute;
pub mod error;
pub mod laws;
pub mod records;
pub mod scan;
pub mod stats;

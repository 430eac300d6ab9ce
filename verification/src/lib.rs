//! Bulk conversion of a line-delimited JSON knowledge-base dump into
//! per-language tabular exports.
//!
//! The crate holds the verified core of the pipeline: line framing, the
//! schema-validated record extractor, the cell encoders for the output
//! tables, and the demultiplexing step of the single sink writer.  The
//! surrounding process (decompression, the worker pool, the channel and the
//! CSV files themselves) drives these functions from plain Rust.

pub mod model;
pub mod extract;
pub mod encode;
pub mod pipeline;
pub mod sink;

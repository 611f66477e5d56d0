//! A k-way merge of individually sorted line streams.
//!
//! The `Heap` type owns one cursor per still-active input stream, each cursor
//! buffering the stream's smallest unconsumed line.  Repeatedly asking the
//! heap for the next line yields the sorted interleaving of all streams, and
//! detects streams that were not actually sorted.

pub mod laws;
pub mod lines;
pub mod merge;
pub mod order;

pub use merge::Heap;
pub use merge::MergeError;

//! Streaming extraction of a delimited field value from large byte streams.
//!
//! The input is consumed block by block. Every occurrence of a fixed marker is
//! located, the bytes between the marker and the next terminator byte are the
//! value, and whatever at the end of a block may still belong to an unfinished
//! marker or value is carried into the next block, so that the values reported
//! do not depend on where the block edges fall.

pub mod boundary;
pub mod config;
pub mod extractor;
pub mod line;
pub mod pattern;
pub mod scan;
pub mod scanner;
pub mod sink;
pub mod stream;
pub mod value;

//! Splitting a line-oriented text file into parts of a fixed number of lines.
//!
//! The library decides everything about a split: where each line ends, which
//! leading lines form the header block, the byte range of every part, the bytes
//! that open each part, how a bounded copy of a range proceeds, and the name of
//! each part file. Reading and writing files is left to the caller.
pub mod lines;
pub mod scan;
pub mod part;
pub mod laws;
pub mod split;


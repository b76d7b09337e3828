//! Verified core of a pipe-buffering tool: a fixed-capacity circular byte
//! store with FIFO contracts, the stepping rules of the producer/consumer
//! protocol around it, and a parser for human-readable size strings.

pub mod parse;
pub mod pipe;
pub mod ring;

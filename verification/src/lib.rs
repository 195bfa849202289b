//! Reassembly of an ordered byte stream from fragments that arrive out of
//! order, overlapping and duplicated.
//!
//! An [`Assembler`] takes fragments, each an offset and some bytes, and hands
//! the stream out again: in stream order, where a gap holds delivery back,
//! or unordered, each new run of bytes as soon as it is there. Bytes are
//! never copied on the way through, except by defragmentation, which keeps
//! a peer that sends tiny slices of large allocations from pinning them all.

pub mod assembler;
pub mod defragment;
pub mod fragment;
pub mod laws;
pub mod model;
pub mod payload;
pub mod range_set;
pub mod store;

pub use assembler::{Assembler, Chunk, IllegalOrderedRead, State};

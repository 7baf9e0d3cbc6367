//! A block-oriented storage engine: one file of fixed-stride slots, each a
//! little-endian length header followed by a payload region, with the set of
//! free slots kept in memory and rebuilt by a scan when a file is reopened.
//!
//! The engine performs no I/O itself. Every operation is a small state
//! machine that asks its driver for one seek, read or write at a time and
//! decides what to do with each reply.

pub mod codec;
pub mod error;
pub mod header;
pub mod io;
pub mod slot_set;
pub mod storage;

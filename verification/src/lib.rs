//! A small storage kernel for a single-node relational database: block-addressed
//! files, a write-ahead log, a fixed pool of pinned buffers, block locks and
//! undo-only transactions; and, on top of it, records in slots and scans of
//! tables.
//!
//! The kernel holds the files of the database in memory, block by block, and
//! never waits: a request that would have to wait for a buffer or for a lock says
//! so to its caller, who asks again later or, after a fixed time, is told to
//! abort. Times are given by the caller, in milliseconds.

pub mod file;
pub mod logging;
pub mod record;
pub mod buffer;
pub mod tx;

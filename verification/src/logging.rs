//! The write-ahead log: its block format, the log manager and the iterator that
//! reads the log back, newest record first.

pub mod format;
pub mod log_iterator;
pub mod log_mgr;

//! Buffers and the fixed pool that hands them out.

pub mod buffer;
pub mod buffer_mgr;

//! Blocks, pages and the block store.

pub mod block_id;
pub mod byte_buffer;
pub mod codec;
pub mod page;
pub mod file_mgr;

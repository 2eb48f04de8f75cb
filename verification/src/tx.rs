//! Transactions: the locks and buffers that each holds, the log records that undo
//! its changes, and the transaction itself.

pub mod block_map;
pub mod concurrency;
pub mod buffer_list;
pub mod recovery;
pub mod transaction;

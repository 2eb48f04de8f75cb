//! Locks on blocks: the table that all transactions share, and the manager that
//! keeps track of the locks of one transaction.

pub mod lock_table;
pub mod concurrency_mgr;

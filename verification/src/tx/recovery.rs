//! The records that a transaction writes to the log: the value that a change
//! replaced, so that the change can be undone, and the commit.

pub mod commit_record;
pub mod set_int_record;
pub mod set_string_record;
pub mod undo;

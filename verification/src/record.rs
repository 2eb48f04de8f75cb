//! Records on top of the kernel: schemas, the layout of a record in a block,
//! record identifiers, the page of records that a block holds, and the scan of
//! the records of a table.

pub mod layout;
pub mod rid;
pub mod schema;
pub mod record_page;
pub mod table_scan;

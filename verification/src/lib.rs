//! Reading the on-disk format of SQLite database files, and the navigation
//! state of a terminal browser for their tables.
pub mod app_state;
pub mod bytes;
pub mod cli;
pub mod error;
pub mod header;
pub mod page;
pub mod record;
pub mod schema;
pub mod text;

//! The counter table: its records, its mathematical model, the store that
//! keeps it, and the operations that callers use.

pub mod actions;
pub mod models;
pub mod store;
pub mod table;

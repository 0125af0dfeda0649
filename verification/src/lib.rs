//! A store of named counters.
//!
//! Every counter is known by its name and holds a running signed total. One
//! operation changes the store: it applies a signed delta to the counter of a
//! name, creating that counter when the name is new. Two more read it. All
//! three are specified against a mathematical table from names to totals, and
//! the store in this crate is proved to behave as that table does.

pub mod database;

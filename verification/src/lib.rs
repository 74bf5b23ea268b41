//! A small persistent key-value store: an in-memory table of string pairs,
//! the flat text format it is saved in, and the command-line dispatcher.

pub mod command;
pub mod error;
pub mod format;
pub mod store;
pub mod table;
pub mod text;

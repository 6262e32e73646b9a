//! Task scheduling.
pub mod manager;

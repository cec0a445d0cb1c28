//! Venues with a protocol of their own.
pub mod coinbase;
pub mod chaining;

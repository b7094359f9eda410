//! The state database: addresses and keys, the model of what a database holds,
//! and the records of connected actors.
pub mod actor;
pub mod addr;
pub mod ip;
pub mod keys;
pub mod laws;
pub mod lookup;
pub mod model;
pub mod store;


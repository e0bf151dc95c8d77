//! A versioned key-value storage engine with a two-phase stage/commit
//! protocol, read views pinned to historical versions, and a gas-metering
//! counter with an optional ceiling.

pub mod admin;
pub mod assoc;
pub mod batch;
pub mod bytes;
pub mod db;
pub mod gas;
pub mod laws;
pub mod store;
pub mod versioned_map;

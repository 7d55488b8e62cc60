//! An in-memory key-value store speaking the RESP wire protocol: the frame
//! codec, the typed store with expiration, command parsing and execution,
//! and the snapshot byte format, each with its contract.

pub mod command;
pub mod counter;
pub mod exec;
pub mod laws;
pub mod list;
pub mod pubsub;
pub mod rdb;
pub mod resp;
pub mod set;
pub mod sorted_set;
pub mod store;
pub mod stream;
pub mod txn;
pub mod util;
pub mod waiters;

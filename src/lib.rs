//! A chain database provider: an in-memory model of the key-value tables and
//! the append-only static-file region of an Ethereum execution node, with
//! block insertion, unwinding, sharded history indices and hashed state.
pub mod blocks;
pub mod changes;
pub mod checkpoints;
pub mod errors;
pub mod hashing;
pub mod history;
pub mod log;
pub mod maintenance;
pub mod models;
pub mod primitives;
pub mod provider;
pub mod readers;
pub mod rw_set;
pub mod sharded;
pub mod stages;
pub mod state;
pub mod static_file;
pub mod table;
pub mod writer;

//! The core of an Electrum server: how blocks and transactions become index rows, and how the
//! questions of wallets are answered from them.

pub mod app;
pub mod cache;
pub mod cashaccount;
pub mod chain;
pub mod daemon;
pub mod db;
pub mod errors;
pub mod hashes;
pub mod index;
pub mod json;
pub mod mempool;
pub mod query;
pub mod rndcache;
pub mod scripthash;
mod sort;
pub mod store;
pub mod table;
pub mod text;
pub mod util;

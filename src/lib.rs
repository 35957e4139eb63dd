//! State access for a blockchain node: a persisted canonical chain, an
//! in-memory tree of validated side blocks, and the read views that compose
//! them.

pub mod bus;
pub mod error;
pub mod identity;
pub mod consistency;
pub mod laws;
pub mod provider;
pub mod state;
pub mod store;
pub mod tree;

//! Decision logic of a decentralised chat: node and user keys, content
//! hashing, the wire headers, the server's view of its peers and clients, the
//! client node that routes requests over onion paths, the storage records and
//! the chain gateway.
//!
//! Everything here is a function of plain values. Sockets, clocks, processes
//! and the cryptographic key types stay with the caller, who hands their
//! results in and carries out the actions that come back.

pub mod ids;
pub mod wire;
pub mod text;
pub mod errors;
pub mod hash;
pub mod keys;
pub mod seal;
pub mod net;
pub mod route;
pub mod topology;
pub mod node;
pub mod boot;
pub mod request;
pub mod context;
pub mod server;
pub mod chain;
pub mod polkadot;
pub mod rpcs;
pub mod storage;

//! A Kademlia-style distributed hash table: identifier algebra, a
//! distance-indexed routing table, local storage with expiration, the RPC
//! records exchanged between peers and the decisions of a node's engine.
pub mod hash;
pub mod routing;
pub mod node;
pub mod storage;
pub mod rpc;
pub mod error;

pub use error::{SubotaiError, SubotaiResult};

//! Node configuration, lifecycle state, and the decisions a node takes on
//! the RPCs it receives and the waves it runs.
use vstd::prelude::*;

pub use crate::routing::NodeInfo;
pub use crate::storage::StorageEntry;
pub use factory::Factory;

pub mod factory;
pub mod hash;
pub mod receptions;
pub mod resources;
pub mod wave;

verus! {

/// Size of a typical UDP socket buffer.
pub const SOCKET_BUFFER_SIZE_BYTES: usize = 65536;

/// Attempts to probe self during the bootstrap process.
pub const BOOTSTRAP_TRIES: u32 = 3;

/// Seconds between two passes of the maintenance loop.
pub const MAINTENANCE_SLEEP_S: u64 = 5;

/// State of a node.
#[derive(Debug, Eq, PartialEq, Clone, Copy, Structural)]
pub enum State {
    /// The node is initialized but disconnected from the
    /// network. Needs to go through succesful bootstrapping.
    OffGrid,
    /// The node is online and connected to the network.
    OnGrid,
    /// The node is in defensive mode. Too many conflicts have
    /// been generated recently, so the node gives preference
    /// to its older contacts until all conflicts are resolved.
    Defensive,
    /// The node is in a process of shutting down;
    /// all of its resources will be deallocated after completion
    /// of any pending async operations.
    ShuttingDown,
}

/// Network configuration constants, frozen when a node is built.
///
/// For the network to function optimally, `alpha`, `impatience`,
/// `expiration_distance_threshold` and `base_expiration_time_hrs` must be
/// identical for all nodes.
#[derive(Clone, Copy, Debug)]
pub struct Configuration {
    /// Network-wide concurrency factor: the number of remote nodes to
    /// interrogate concurrently in a lookup wave.
    pub alpha: usize,
    /// How many outstanding responses a wave may give up waiting for, in
    /// the range `[0, alpha)`.
    pub impatience: usize,
    /// Size of a bucket and of the standard result set.
    pub k_factor: usize,
    /// Unresolved eviction conflicts that put the node in defensive state.
    pub max_conflicts: usize,
    /// Maximum number of stored entries across all keys.
    pub max_storage: usize,
    /// Maximum size in bytes of a blob entry.
    pub max_storage_blob_size: usize,
    /// Prefix distance from a key past which cached copies expire quickly.
    pub expiration_distance_threshold: usize,
    /// Upper bound, in hours, of a stored entry's lifetime.
    pub base_expiration_time_hrs: i64,
    /// Seconds after which a remote node is taken not to have responded.
    pub network_timeout_s: i64,
}

impl Configuration {
    /// The values a node gets when nothing is set.
    pub open spec fn is_default(&self) -> bool {
        &&& self.alpha == 3
        &&& self.impatience == 1
        &&& self.k_factor == 20
        &&& self.max_conflicts == 60
        &&& self.max_storage == 10000
        &&& self.max_storage_blob_size == 1024
        &&& self.expiration_distance_threshold == 3
        &&& self.base_expiration_time_hrs == 24
        &&& self.network_timeout_s == 5
    }
}

impl Default for Configuration {
    fn default() -> (r: Configuration)
        ensures
            r.is_default(),
    {
        Configuration {
            alpha: 3,
            impatience: 1,
            k_factor: 20,
            max_conflicts: 60,
            max_storage: 10000,
            max_storage_blob_size: 1024,
            expiration_distance_threshold: 3,
            base_expiration_time_hrs: 24,
            network_timeout_s: 5,
        }
    }
}

} // verus!

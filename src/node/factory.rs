//! Construction of nodes with specific configuration options, such as
//! network constants and UDP ports.
use vstd::prelude::*;
use crate::node::Configuration;

verus! {

/// Allows the construction of nodes with custom network constants, specific ports,
/// and other options.
pub struct Factory {
    pub configuration: Configuration,
    pub inbound_port: u16,
    pub outbound_port: u16,
}

impl Factory {
    /// A factory with the default configuration and ports chosen by the
    /// operating system.
    pub fn new() -> (r: Self)
        ensures
            r.configuration.is_default(),
            r.inbound_port == 0,
            r.outbound_port == 0,
    {
        Factory { configuration: Configuration::default(), inbound_port: 0, outbound_port: 0 }
    }

    /// Inbound UDP port for incoming RPCs.
    pub fn inbound_port(self, port: u16) -> (r: Self)
        ensures
            r.inbound_port == port,
            r.outbound_port == self.outbound_port,
            r.configuration == self.configuration,
    {
        Factory { inbound_port: port, ..self }
    }

    /// Outbound UDP port for outgoing RPCs.
    pub fn outbound_port(self, port: u16) -> (r: Self)
        ensures
            r.outbound_port == port,
            r.inbound_port == self.inbound_port,
            r.configuration == self.configuration,
    {
        Factory { outbound_port: port, ..self }
    }

    /// Network-wide concurrency factor. The impatience is lowered, if
    /// needed, to stay below it.
    pub fn alpha(self, alpha: usize) -> (r: Self)
        ensures
            r.configuration == (Configuration {
                alpha,
                impatience: if self.configuration.impatience <= sat_pred(alpha) {
                    self.configuration.impatience
                } else {
                    sat_pred(alpha)
                },
                ..self.configuration
            }),
            r.inbound_port == self.inbound_port,
            r.outbound_port == self.outbound_port,
    {
        let mut f = self;
        f.configuration.alpha = alpha;
        let bound = alpha.saturating_sub(1);
        if f.configuration.impatience > bound {
            f.configuration.impatience = bound;
        }
        f
    }

    /// Impatience factor, kept in the range `[0, alpha)`: how many nodes a
    /// wave may give up waiting for before starting the next one.
    pub fn impatience(self, impatience: usize) -> (r: Self)
        ensures
            r.configuration == (Configuration {
                impatience: if impatience <= sat_pred(self.configuration.alpha) {
                    impatience
                } else {
                    sat_pred(self.configuration.alpha)
                },
                ..self.configuration
            }),
            r.inbound_port == self.inbound_port,
            r.outbound_port == self.outbound_port,
    {
        let mut f = self;
        let bound = f.configuration.alpha.saturating_sub(1);
        f.configuration.impatience = if impatience <= bound {
            impatience
        } else {
            bound
        };
        f
    }

    /// Size of the buckets of the routing table.
    pub fn k_factor(self, k_factor: usize) -> (r: Self)
        ensures
            r.configuration == (Configuration { k_factor, ..self.configuration }),
            r.inbound_port == self.inbound_port,
            r.outbound_port == self.outbound_port,
    {
        let mut f = self;
        f.configuration.k_factor = k_factor;
        f
    }

    /// Maximum amount of eviction conflicts allowed before the node goes into
    /// a temporary defensive mode.
    pub fn max_conflicts(self, max_conflicts: usize) -> (r: Self)
        ensures
            r.configuration == (Configuration { max_conflicts, ..self.configuration }),
            r.inbound_port == self.inbound_port,
            r.outbound_port == self.outbound_port,
    {
        let mut f = self;
        f.configuration.max_conflicts = max_conflicts;
        f
    }

    /// Maximum amount of storage entries (key-value or key-blob pairs).
    pub fn max_storage(self, max_storage: usize) -> (r: Self)
        ensures
            r.configuration == (Configuration { max_storage, ..self.configuration }),
            r.inbound_port == self.inbound_port,
            r.outbound_port == self.outbound_port,
    {
        let mut f = self;
        f.configuration.max_storage = max_storage;
        f
    }

    /// Maximum size in bytes for a blob storage entry.
    pub fn max_storage_blob_size(self, max_storage_blob_size: usize) -> (r: Self)
        ensures
            r.configuration == (Configuration { max_storage_blob_size, ..self.configuration }),
            r.inbound_port == self.inbound_port,
            r.outbound_port == self.outbound_port,
    {
        let mut f = self;
        f.configuration.max_storage_blob_size = max_storage_blob_size;
        f
    }

    /// XOR prefix distance from a key past which cached copies of its
    /// entries expire dramatically sooner.
    pub fn expiration_distance_threshold(self, expiration_distance_threshold: usize) -> (r: Self)
        ensures
            r.configuration == (Configuration {
                expiration_distance_threshold,
                ..self.configuration
            }),
            r.inbound_port == self.inbound_port,
            r.outbound_port == self.outbound_port,
    {
        let mut f = self;
        f.configuration.expiration_distance_threshold = expiration_distance_threshold;
        f
    }

    /// Time in seconds after which it can be assumed that a remote node has
    /// failed to respond to a query.
    pub fn network_timeout_s(self, network_timeout_s: i64) -> (r: Self)
        ensures
            r.configuration == (Configuration { network_timeout_s, ..self.configuration }),
            r.inbound_port == self.inbound_port,
            r.outbound_port == self.outbound_port,
    {
        let mut f = self;
        f.configuration.network_timeout_s = network_timeout_s;
        f
    }

    /// Base expiration time, in hours, for storage entries.
    pub fn base_expiration_time_hrs(self, base_expiration_time_hrs: i64) -> (r: Self)
        ensures
            r.configuration == (Configuration { base_expiration_time_hrs, ..self.configuration }),
            r.inbound_port == self.inbound_port,
            r.outbound_port == self.outbound_port,
    {
        let mut f = self;
        f.configuration.base_expiration_time_hrs = base_expiration_time_hrs;
        f
    }
}

/// `n - 1`, or 0 for 0.
pub open spec fn sat_pred(n: usize) -> usize {
    if n == 0 {
        0
    } else {
        (n - 1) as usize
    }
}

} // verus!

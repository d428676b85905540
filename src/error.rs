//! The ways in which a hash table operation may fail.
use vstd::prelude::*;

verus! {

/// Reports the various ways in which a hash table query may fail.
#[derive(Debug, Clone, Copy, PartialEq, Eq, Structural)]
pub enum SubotaiError {
    /// No response from a particular remote node.
    NoResponse,
    /// This node isn't connected to enough live nodes to be considered part
    /// of a live network (i.e. the node is off grid).
    OffGridError,
    /// The node specified wasn't found.
    NodeNotFound,
    /// The value specified falls out of bounds of the routing table space.
    OutOfBounds,
    /// Error during a store operation.
    StorageError,
    /// The network is unresponsive (several RPCs have timed out).
    UnresponsiveNetwork,
}

impl SubotaiError {
    /// A sentence describing the error.
    pub fn description(&self) -> (r: &'static str)
        ensures
            r@ == match self {
                SubotaiError::NoResponse => "Timed out with no response"@,
                SubotaiError::OffGridError => "The node is currently off-grid."@,
                SubotaiError::NodeNotFound => "Could not find the node"@,
                SubotaiError::OutOfBounds => "Index outside routing table."@,
                SubotaiError::StorageError => "Corrupted Storage."@,
                SubotaiError::UnresponsiveNetwork => "Network too small or unresponsive."@,
            },
    {
        match self {
            SubotaiError::NoResponse => "Timed out with no response",
            SubotaiError::OffGridError => "The node is currently off-grid.",
            SubotaiError::NodeNotFound => "Could not find the node",
            SubotaiError::OutOfBounds => "Index outside routing table.",
            SubotaiError::StorageError => "Corrupted Storage.",
            SubotaiError::UnresponsiveNetwork => "Network too small or unresponsive.",
        }
    }
}

/// Result of a hash table operation.
pub type SubotaiResult<T> = Result<T, SubotaiError>;

} // verus!

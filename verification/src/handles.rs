//! Plain handle and payload descriptors. A handle stands for the address of a
//! component running in the host: messages sent through it are identified by
//! the numeric id alone, and the registry never looks inside a payload.

use vstd::prelude::*;

verus! {

/// Address of a per-chain processing unit. The registry mints these with
/// strictly increasing ids, so two units created at different times never
/// share a handle.
#[derive(Clone, Copy, PartialEq, Eq, Structural, Debug)]
pub struct UnitHandle {
    pub id: u64,
}

/// Opaque descriptor of a node registration payload. The registry forwards it
/// unchanged and never inspects it; the id identifies the payload to the host.
#[derive(Clone, Copy, PartialEq, Eq, Structural, Debug)]
pub struct NodeDetails {
    pub id: u64,
}

/// Address of the producer connection that must be called back once the unit
/// has accepted the node. Forwarded unchanged.
#[derive(Clone, Copy, PartialEq, Eq, Structural, Debug)]
pub struct ProducerCallback {
    pub id: u64,
}

/// Address of a subscriber (feed) connection.
#[derive(Clone, Copy, PartialEq, Eq, Structural, Debug)]
pub struct FeedHandle {
    pub id: u64,
}

} // verus!

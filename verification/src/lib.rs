//! Aggregation hub of a telemetry network: the registry that owns the mapping
//! from chain name to a per-chain processing unit, creates units on demand,
//! replaces dead ones, tears down empty ones, and routes producer/subscriber
//! messages to the right unit. Units themselves and the message transport are
//! external collaborators; a host runs the mailboxes and performs the actions
//! this library decides on.

pub mod dense_map;
pub mod handles;
pub mod registry;

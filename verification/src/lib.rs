//! A single-node participant in a Kademlia-style key/value overlay:
//! a distance-ordered routing table, a local record store, an iterative
//! query engine with quorum tracking, and the event dispatch that ties
//! local commands, discovery events and peer responses together.
//!
//! Network transport, peer discovery and process wiring are external
//! collaborators: they hand plain values (peer identifiers, addresses,
//! response payloads) to the functions here and carry the returned
//! actions out.

use vstd::prelude::*;

pub mod dispatch;
pub mod handler;
pub mod id;
pub mod closest;
pub mod query;
pub mod routing;
pub mod store;

verus! {

/// Failure taxonomy for queries and commands.
#[derive(Clone, Copy, PartialEq, Eq, Structural, Debug)]
pub enum DhtError {
    /// The routing table holds no peers, so a query has nobody to contact.
    RoutingTableEmpty,
    /// Every contactable peer was exhausted below the required quorum.
    QuorumUnreachable,
    /// The query's deadline elapsed before it could finish.
    QueryTimeout,
    /// A remote returned data that does not parse as a record; only that
    /// peer's contribution is discarded.
    MalformedPeerResponse,
    /// The local record store rejected the record; fatal to the enclosing
    /// PUT regardless of network outcome.
    LocalStoreFailure,
    /// The command line did not parse as `GET <key>` or `PUT <key> <value>`.
    CommandSyntaxError,
}

} // verus!

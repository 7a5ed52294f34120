//! Link-state routing core of a mesh overlay: a versioned database of peer
//! descriptors and adjacency sets, the route tables computed from it, and the
//! per-neighbour sessions that decide what to send to whom.

use vstd::prelude::*;

pub mod clock;
pub mod conn_bitmap;
pub mod cost;
pub mod dash;
pub mod error;
pub mod graph;
pub mod nat_type;
pub mod next_hop;
pub mod peer_graph;
pub mod peer_info;
pub mod peer_route;
pub mod peer_set;
pub mod proxy_cidr;
pub mod route;
pub mod route_table;
pub mod rpc_types;
pub mod service;
pub mod service_registry;
pub mod session;
pub mod session_mgr;
pub mod synced_info;
pub mod topology;
pub mod version;

verus! {

/// Identifier of a peer in the overlay.
pub type PeerId = u32;

/// Monotonic counter attached to every synchronised record.
pub type Version = u32;

/// Identifier a node picks at random for each of its sessions.
pub type SessionId = u64;

/// A point in time, in nanoseconds since the Unix epoch.
pub type Timestamp = u128;

/// Number under which the route synchronisation service is registered.
pub const SERVICE_ID: u32 = 7;

/// Nanoseconds in one second.
pub const NANOS_PER_SEC: u128 = 1_000_000_000;

/// Age after which a node republishes its own descriptor even when nothing
/// changed: 3600 seconds.
pub const UPDATE_PEER_INFO_PERIOD: u128 = 3600 * NANOS_PER_SEC;

/// Age after which a descriptor that was not refreshed is dropped: 3660
/// seconds, a little more than the refresh period, so that the descriptor of
/// a live peer is never dropped.
pub const REMOVE_DEAD_PEER_INFO_AFTER: u128 = 3660 * NANOS_PER_SEC;

} // verus!

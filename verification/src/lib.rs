//! Group-membership and failure-detection core of a small peer-to-peer
//! cluster.
//!
//! Each node keeps a sorted membership list, successor and predecessor
//! lists derived from its ring position, a table of the last heartbeat
//! seen from each predecessor, and an address map from UDP endpoints to
//! TCP endpoints.  Inbound wire messages are decoded into operations;
//! executing an operation mutates this state and yields follow-up
//! operations with routing intent.  Periodic maintenance emits
//! heartbeats to successors and evicts predecessors whose heartbeats
//! have expired.

pub mod codec;
pub mod ids;
pub mod ops;
pub mod order;
pub mod ring;
pub mod smap;
pub mod state;

use vstd::prelude::*;

verus! {

/// Bytes of framing overhead in a wire message: a four byte type tag
/// plus one reserved framing byte.
pub const HEADER_SIZE: usize = 5;

/// How many successors (and predecessors) each node tracks on the ring.
pub const NUM_SUCCESSORS: u32 = 2;

/// Seconds without a heartbeat after which a predecessor is expired.
pub const EXPIRATION_DURATION: u64 = 3;

/// What can go wrong in the membership core.
#[derive(Clone, Copy, Debug, PartialEq, Eq, Structural)]
pub enum Error {
    /// A command needed the node to be joined, and it was not.
    NotJoined,
    /// `join` was issued while already joined.
    AlreadyJoined,
    /// Neighbor lists cannot be computed from an empty membership list.
    EmptyMembership,
    /// The node's own identifier is missing from the membership list.
    SelfMissing,
    /// An identifier lacked the `'|'` separator.
    MalformedId,
    /// A heartbeat arrived whose identifier does not match its source.
    SuspiciousHeartbeat,
    /// An operation that needs a remote source was synthesized locally.
    NotRemote,
    /// An expiry check was asked about a node that is not a predecessor.
    NotAPredecessor,
    /// The clock reported a time before a stored heartbeat timestamp.
    ClockRegression,
    /// A UDP endpoint had no entry in the UDP-to-TCP address map.
    MissingTcpEntry,
    /// The system clock predates the Unix epoch.
    ClockBeforeEpoch,
    /// A string or list is too long for a four byte length field.
    Oversized,
}

} // verus!

//! Many connections over one socket.
use vstd::prelude::*;

pub mod cid_table;
pub mod deadlines;
pub mod output;
pub mod registry;
pub mod reset_index;
pub mod router;
pub mod setup;
pub mod turns;

verus! {

/// How many connections there are at most.
pub const MAX_CONNECTIONS: usize = 65_536;

/// How many packets wait to go out at most.
pub const MAX_OUTGOING_CAPACITY: usize = 65_536;

/// How many bytes wait to go out at most.
pub const MAX_OUTGOING_BYTES: usize = 1_073_741_824;

/// How many connection IDs lead to one connection at most.
pub const MAX_CIDS_PER_CONN: usize = 10;

/// How many of the connection IDs of a connection are its own; the others are
/// those that a client chose.
pub const MAX_ACTIVE_CONNECTION_IDS: usize = 8;

/// The length of the connection IDs that are made here.
pub const ROUTED_CID_LEN: usize = 8;

/// Names one connection for as long as it is there.
#[derive(Debug, Clone, Copy, PartialEq, Eq, Structural)]
pub struct Handle {
    pub index: u32,
    pub generation: u32,
}

} // verus!

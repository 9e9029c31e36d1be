//! The protocol layer of a datagram network: the wire format of packages, reassembly of
//! frames from per-peer byte buffers, peer ids, the session state machine, and the
//! decisions of the dispatch layer, handed to the owner of the transport as actions.

pub mod frame;
pub mod handlers;
pub mod layer;
pub mod package;
pub mod peer;
pub mod session;

//! A consistent-hash ring that routes serializable requests to a dynamic
//! set of backend nodes.
//!
//! The ring places every accepted physical node, together with a configured
//! number of virtual replicas, onto a bucketed circular index. A request is
//! hashed into the same index space and routed to the nearest occupied
//! bucket clockwise, whose occupants are collapsed back to a single
//! physical owner.

pub mod maat_node;
pub mod maat_ring;
pub mod ring_buffer;

pub use maat_node::MaatNode;
pub use maat_node::Server;
pub use maat_ring::DefaultMaatRing;
pub use maat_ring::MaatRing;
pub use maat_ring::MaatError;
pub use maat_ring::NotFound;
pub use maat_ring::Request;
pub use maat_ring::Serializable;
pub use maat_ring::Wrapper;
pub use ring_buffer::InMemoryRingBuffer;
pub use ring_buffer::RingBuffer;

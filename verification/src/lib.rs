//! Building blocks for nodes of a message-passing distributed system:
//! a generic envelope type, an actor interface, and a gossip-based
//! anti-entropy replication engine used by broadcast and grow-only
//! counter actors.
pub mod actor;
pub mod broadcast;
pub mod crdt;
pub mod echo;
pub mod errors;
pub mod g_counter;
pub mod id;
pub mod message;

pub use message::Message;

//! Room-synchronization relay core: namespace patterns, index-feed and
//! room-packet wire formats, the room registry, and the per-room listener
//! and provider state machines.

pub mod codec;
pub mod doc;
pub mod index_packet;
pub mod listener;
pub mod pattern;
pub mod provider;
pub mod rooms;
pub mod session;

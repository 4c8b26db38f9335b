//! Client-side network synchronisation for a real-time arena game: the wire
//! codec, the enemy registry and the state that received packets drive.
pub mod codec;
pub mod registry;
pub mod client;

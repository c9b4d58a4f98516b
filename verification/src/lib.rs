//! Core logic of a VPN profile rotator: discovery-output parsing, durable
//! state encoding and loading, and the rotation step that picks the next
//! profile and commits state only after a successful switch.
//!
//! All process spawning, file reading/writing and HTTP serving live outside
//! this crate; the functions here take the outcomes of those actions as plain
//! values and make every decision about them.

pub mod chars;
pub mod codec;
pub mod discovery;
pub mod rotation;
pub mod state;

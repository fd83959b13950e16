//! Peer discovery over a broadcast domain: announcements, a liveness table
//! with a timeout-based failure detector, and membership updates.

pub mod identity;
pub mod update;
pub mod detector;
pub mod wire;
pub mod announcer;

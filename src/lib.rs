//! Membership coordination for a room-based publish/subscribe service.
//!
//! Connections join and leave rooms; each change touches two records (the
//! connection's room and the room's roster), and this crate states and proves
//! that the two are always changed together.
pub mod keyed;
pub mod store;
pub mod memory;
pub mod membership;
pub mod laws;
pub mod protocol;
pub mod routing;

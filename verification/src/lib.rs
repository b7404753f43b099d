//! Verified core of AeroDesk, the desktop companion that receives dictated text
//! from a paired phone over a LAN WebSocket and types it at the desktop cursor.

pub mod text;
pub mod json;
pub mod pairing;
pub mod platform;
pub mod registry;
pub mod session;
pub mod system_deps;

//! Server-side logic of a Simple Voice Chat backend: wire formats of the
//! plugin-message and UDP packets, per-player session state, packet
//! encryption and packet rate limiting.

pub mod wire;
pub mod secret;
pub mod rate_limiter;
pub mod state;
pub mod config;
pub mod packets;
pub mod handlers;
pub mod voice;
pub mod udp;
pub mod util;

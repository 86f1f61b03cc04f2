//! TinyVPN: control-plane registry, access control, relay forwarding and
//! wire formats of a small WireGuard mesh VPN, with their contracts.

pub mod text;
pub mod order;
pub mod pairs;
pub mod protocol;
pub mod registry;
pub mod net;
pub mod relay;
pub mod stun;
pub mod crypto;
pub mod cli;
pub mod config;
pub mod wg;
pub mod puncher;
pub mod server;

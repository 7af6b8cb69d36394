//! A WireGuard exit node: its peers, the packets they send and the flows in them.
pub mod flow;
pub mod iface;
pub mod peer;
pub mod server;

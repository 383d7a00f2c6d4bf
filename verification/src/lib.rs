//! Multipath tunnelling: one client byte stream is cut into numbered frames,
//! spread over several TCP tunnels, and put back together at the far end.
//!
//! This crate holds the rules of that protocol and none of its I/O. A caller
//! reads sockets and clocks, hands what it read to the functions here, and
//! carries out what they return.

pub mod addr;
pub mod buf;
pub mod clock;
pub mod config;
pub mod exchange;
pub mod frame;
pub mod laws;
pub mod logging;
pub mod reassembler;
pub mod reorder;
pub mod socks5;
pub mod splitter;
pub mod sums;
pub mod tables;
pub mod text;
pub mod tunnel;
pub mod wire;

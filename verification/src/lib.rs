//! Point-to-point IP tunnel core: length-prefixed packet framing over an
//! encrypted byte stream, per-session forwarding state, and the server-side
//! multiplexing discipline for a shared packet device.
//!
//! Everything here is pure logic on plain values; the surrounding binary
//! supplies the actual device and transport I/O.

pub mod codec;
pub mod config;
pub mod errors;
pub mod mux;
pub mod session;
pub mod sim;

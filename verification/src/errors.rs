//! Error taxonomy for the tunnel core.

use vstd::prelude::*;

verus! {

/// Every failure the tunnel core can report.
///
/// - `DeviceIo`: a read or write on the packet device failed; terminal for the
///   owning session, not for the process.
/// - `Transport`: connect/accept/handshake or an established stream failed;
///   terminal for the owning session.
/// - `TruncatedFrame`: the stream closed mid-frame (after a length prefix but
///   before the full payload); signals a misbehaving peer.
/// - `ConnectionClosed`: the stream closed cleanly at a frame boundary.
/// - `FrameTooLarge`: a packet longer than the 16-bit length field allows was
///   handed to the encoder; purely local, nothing reaches the wire.
#[derive(Clone, Copy, Debug, PartialEq, Eq, Structural)]
pub enum TunnelError {
    DeviceIo,
    Transport,
    TruncatedFrame,
    ConnectionClosed,
    FrameTooLarge,
}

} // verus!

//! In-memory stand-ins for the two external collaborators: a packet device
//! backed by a queue and a secure stream backed by a byte pipe.
//!
//! They satisfy the same capability contracts the real device and transport
//! offer — whole-packet reads and writes, ordered byte delivery — so the
//! forwarding logic can be exercised without an OS device or a handshake.

use vstd::prelude::*;

use crate::codec::decode_frame;
use crate::codec::decode_result;
use crate::codec::decode_stream_spec;
use crate::codec::encode_frame;
use crate::codec::frame_of;
use crate::codec::wire_of;
use crate::codec::MAX_PAYLOAD;
use crate::errors::TunnelError;
use crate::session::Direction;
use crate::session::SessionAction;
use crate::session::TunnelSession;

verus! {

/// What a `Vec` of packets holds, as a sequence of byte sequences.
pub open spec fn packet_log(ps: Seq<Vec<u8>>) -> Seq<Seq<u8>> {
    ps.map_values(|p: Vec<u8>| p@)
}

/// A packet device backed by an in-process queue.
///
/// `incoming` holds the packets the device will hand to `read_packet`, front
/// first; `delivered` records every packet written to the device, oldest
/// first. Writes are atomic at packet granularity: one call appends exactly
/// one whole packet to `delivered`.
pub struct MemoryDevice {
    /// Packets still to be delivered to `read_packet`, front first.
    pub incoming: Vec<Vec<u8>>,
    /// Packets accepted by `write_packet`, oldest first.
    pub delivered: Vec<Vec<u8>>,
}

impl MemoryDevice {
    /// A device that will deliver nothing and has accepted nothing.
    pub fn new() -> (d: Self)
        ensures
            d.incoming@.len() == 0,
            d.delivered@.len() == 0,
    {
        MemoryDevice { incoming: Vec::new(), delivered: Vec::new() }
    }

    /// The device hands over a packet queued for delivery, front first.
    pub fn queue_incoming(&mut self, packet: Vec<u8>)
        ensures
            final(self).incoming@ == old(self).incoming@.push(packet),
            final(self).delivered == old(self).delivered,
    {
        self.incoming.push(packet);
    }

    /// Reads one whole packet, never fragmented, never coalesced.
    ///
    /// An exhausted queue plays the part of a failed device: the read
    /// reports a device error and changes nothing.
    pub fn read_packet(&mut self) -> (r: Result<Vec<u8>, TunnelError>)
        ensures
            r is Ok <==> old(self).incoming@.len() > 0,
            r matches Ok(p) ==> p == old(self).incoming@[0]
                && final(self).incoming@ == old(self).incoming@.drop_first(),
            r matches Err(e) ==> e == TunnelError::DeviceIo && *final(self) == *old(self),
            final(self).delivered == old(self).delivered,
    {
        if self.incoming.len() == 0 {
            Err(TunnelError::DeviceIo)
        } else {
            let p = self.incoming.remove(0);
            proof {
                assert(self.incoming@ =~= old(self).incoming@.drop_first());
            }
            Ok(p)
        }
    }

    /// Writes one whole packet: the device observes it as a single
    /// contiguous unit appended to everything delivered so far.
    pub fn write_packet(&mut self, packet: &[u8])
        ensures
            packet_log(final(self).delivered@)
                == packet_log(old(self).delivered@).push(packet@),
            final(self).incoming == old(self).incoming,
    {
        let owned = vstd::slice::slice_to_vec(packet);
        let ghost before = self.delivered@;
        self.delivered.push(owned);
        proof {
            assert(packet_log(self.delivered@) =~= packet_log(before).push(packet@));
        }
    }
}

/// Writes at the device are never interleaved: the byte stream the device
/// observes after a whole-packet write is everything it had observed before,
/// followed by that packet's bytes as one contiguous run.
pub proof fn lemma_device_write_contiguous(log: Seq<Seq<u8>>, packet: Seq<u8>)
    ensures
        log.push(packet).flatten() == log.flatten() + packet,
{
    log.lemma_flatten_push(packet);
    assert(log.push(packet).flatten() =~= log.flatten() + packet);
}

/// A secure stream backed by an in-process byte pipe.
///
/// `sent` records every byte this endpoint wrote, in order; `to_receive`
/// holds everything the peer sent before closing, with `read_pos` marking how
/// far the frames have been consumed.
pub struct MemoryStream {
    /// Bytes written by this endpoint, in order.
    pub sent: Vec<u8>,
    /// Bytes the peer sent before closing the stream.
    pub to_receive: Vec<u8>,
    /// How many of the peer's bytes have been consumed.
    pub read_pos: usize,
}

impl MemoryStream {
    /// The read position never passes the end of the delivered bytes.
    pub open spec fn wf(self) -> bool {
        self.read_pos <= self.to_receive@.len()
    }

    /// The peer's bytes not yet consumed.
    pub open spec fn remaining(self) -> Seq<u8> {
        self.to_receive@.skip(self.read_pos as int)
    }

    /// A stream on which the peer has sent `to_receive` and then closed.
    pub fn new(to_receive: Vec<u8>) -> (s: Self)
        ensures
            s.sent@.len() == 0,
            s.remaining() == to_receive@,
            s.wf(),
    {
        let s = MemoryStream { sent: Vec::new(), to_receive, read_pos: 0 };
        proof {
            assert(s.remaining() =~= s.to_receive@);
        }
        s
    }

    /// Encodes one packet and sends its frame: the length prefix and the
    /// payload leave as one unit, with nothing interleaved between them.
    ///
    /// An oversized packet is rejected locally: the failure reports
    /// `FrameTooLarge` and not a single byte reaches the wire.
    pub fn send_frame(&mut self, packet: &[u8]) -> (r: Result<(), TunnelError>)
        ensures
            r is Ok <==> packet@.len() <= MAX_PAYLOAD,
            r is Ok ==> final(self).sent@ == old(self).sent@ + frame_of(packet@),
            r matches Err(e) ==> e == TunnelError::FrameTooLarge && *final(self) == *old(self),
            final(self).to_receive == old(self).to_receive,
            final(self).read_pos == old(self).read_pos,
    {
        match encode_frame(packet) {
            Err(e) => Err(e),
            Ok(frame) => {
                let ghost before = self.sent@;
                let mut i: usize = 0;
                let n = frame.len();
                while i < n
                    invariant
                        n == frame@.len(),
                        i <= n,
                        self.sent@ == before + frame@.take(i as int),
                        self.to_receive == old(self).to_receive,
                        self.read_pos == old(self).read_pos,
                    decreases n - i,
                {
                    self.sent.push(frame[i]);
                    proof {
                        assert(self.sent@ =~= before + frame@.take(i + 1 as int));
                    }
                    i += 1;
                }
                proof {
                    assert(before + frame@.take(n as int) =~= before + frame_of(packet@));
                }
                Ok(())
            },
        }
    }

    /// Receives and decodes one frame from the peer's bytes.
    ///
    /// Yields a complete packet or fails: a close at a frame boundary is a
    /// clean `ConnectionClosed`, a close after a partial prefix or partial
    /// payload is a `TruncatedFrame`, and no silently short packet exists.
    pub fn receive_frame(&mut self) -> (r: Result<Vec<u8>, TunnelError>)
        requires
            old(self).wf(),
        ensures
            final(self).wf(),
            r is Ok <==> decode_result(old(self).remaining()) is Ok,
            r matches Ok(p) ==> decode_result(old(self).remaining())
                == Ok::<Seq<u8>, TunnelError>(p@)
                && final(self).remaining() == old(self).remaining().skip(2 + p@.len() as int),
            r matches Err(e) ==> decode_result(old(self).remaining())
                == Err::<Seq<u8>, TunnelError>(e)
                && *final(self) == *old(self),
            final(self).sent == old(self).sent,
            final(self).to_receive == old(self).to_receive,
    {
        let avail = vstd::slice::slice_subrange(
            self.to_receive.as_slice(),
            self.read_pos,
            self.to_receive.len(),
        );
        proof {
            assert(avail@ =~= old(self).remaining());
        }
        match decode_frame(avail) {
            Err(e) => Err(e),
            Ok((packet, consumed)) => {
                self.read_pos = self.read_pos + consumed;
                proof {
                    assert(self.remaining()
                        =~= old(self).remaining().skip(2 + packet@.len() as int));
                }
                Ok(packet)
            },
        }
    }
}

/// The bytes the device-to-stream direction manages to send from a queue of
/// packets: each packet's frame, in order, up to the first oversized packet.
pub open spec fn device_to_stream_sent(ps: Seq<Seq<u8>>) -> Seq<u8>
    decreases ps.len(),
{
    if ps.len() == 0 {
        Seq::empty()
    } else if ps.first().len() > MAX_PAYLOAD {
        Seq::empty()
    } else {
        frame_of(ps.first()) + device_to_stream_sent(ps.drop_first())
    }
}

/// The failure that ends the device-to-stream direction on that queue: a
/// device error once the queue is exhausted, or the first oversized packet.
pub open spec fn device_to_stream_error(ps: Seq<Seq<u8>>) -> TunnelError
    decreases ps.len(),
{
    if ps.len() == 0 {
        TunnelError::DeviceIo
    } else if ps.first().len() > MAX_PAYLOAD {
        TunnelError::FrameTooLarge
    } else {
        device_to_stream_error(ps.drop_first())
    }
}

/// What stays queued when that direction stops: nothing, unless an oversized
/// packet ended it early.
pub open spec fn device_to_stream_left(ps: Seq<Seq<u8>>) -> Seq<Seq<u8>>
    decreases ps.len(),
{
    if ps.len() == 0 {
        Seq::empty()
    } else if ps.first().len() > MAX_PAYLOAD {
        ps.drop_first()
    } else {
        device_to_stream_left(ps.drop_first())
    }
}

/// When every queued packet fits a frame, the direction sends exactly the
/// packets' frames in queue order, drains the queue, and ends with the
/// device error — so the peer decodes exactly the queued packets, in order.
pub proof fn lemma_device_to_stream_all_fit(ps: Seq<Seq<u8>>)
    requires
        forall|i: int| 0 <= i < ps.len() ==> #[trigger] ps[i].len() <= MAX_PAYLOAD,
    ensures
        device_to_stream_sent(ps) == wire_of(ps),
        device_to_stream_error(ps) == TunnelError::DeviceIo,
        device_to_stream_left(ps) == Seq::<Seq<u8>>::empty(),
    decreases ps.len(),
{
    if ps.len() > 0 {
        assert(ps[0].len() <= MAX_PAYLOAD);
        assert(forall|i: int|
            0 <= i < ps.drop_first().len() ==> #[trigger] ps.drop_first()[i] == ps[i + 1]);
        lemma_device_to_stream_all_fit(ps.drop_first());
    }
}

/// Session isolation, end to end: when a session's device queue holds
/// packets that all fit a frame, the bytes its device-to-stream direction
/// puts on the stream decode back to exactly those packets, in queue order.
pub proof fn lemma_forwarding_keeps_order(ps: Seq<Seq<u8>>)
    requires
        forall|i: int| 0 <= i < ps.len() ==> #[trigger] ps[i].len() <= MAX_PAYLOAD,
    ensures
        decode_stream_spec(device_to_stream_sent(ps)) == Ok::<Seq<Seq<u8>>, TunnelError>(ps),
{
    lemma_device_to_stream_all_fit(ps);
    crate::codec::lemma_stream_round_trip(ps);
}

/// Runs one session's device-to-stream direction to its end: read a packet,
/// frame it, send it, until the device or the encoder fails; then report the
/// failure, which starts the session's close and cancels the peer direction.
///
/// Packets travel in strict queue order with nothing interleaved, the
/// opposite direction's bytes (`to_receive`, `read_pos`) are never touched,
/// and the device sees no write from this direction.
pub fn pump_device_to_stream(
    dev: &mut MemoryDevice,
    stream: &mut MemoryStream,
    session: &mut TunnelSession,
) -> (a: SessionAction)
    requires
        old(session).state is Running,
        old(session).wf(),
    ensures
        a == SessionAction::CancelOther,
        final(session).id == old(session).id,
        final(session).wf(),
        final(session).state is Closing,
        final(session).failed == Some(
            (
                Direction::DeviceToStream,
                device_to_stream_error(packet_log(old(dev).incoming@)),
            ),
        ),
        final(stream).sent@ == old(stream).sent@ + device_to_stream_sent(
            packet_log(old(dev).incoming@),
        ),
        packet_log(final(dev).incoming@) == device_to_stream_left(
            packet_log(old(dev).incoming@),
        ),
        final(dev).delivered == old(dev).delivered,
        final(stream).to_receive == old(stream).to_receive,
        final(stream).read_pos == old(stream).read_pos,
{
    let ghost full = packet_log(old(dev).incoming@);
    let ghost mut done: Seq<u8> = Seq::empty();
    proof {
        assert(old(stream).sent@ + done =~= old(stream).sent@);
    }
    loop
        invariant
            session.state is Running,
            session.wf(),
            *session == *old(session),
            full == packet_log(old(dev).incoming@),
            stream.sent@ == old(stream).sent@ + done,
            device_to_stream_sent(full) == done + device_to_stream_sent(
                packet_log(dev.incoming@),
            ),
            device_to_stream_error(full) == device_to_stream_error(packet_log(dev.incoming@)),
            device_to_stream_left(full) == device_to_stream_left(packet_log(dev.incoming@)),
            dev.delivered == old(dev).delivered,
            stream.to_receive == old(stream).to_receive,
            stream.read_pos == old(stream).read_pos,
        decreases dev.incoming@.len(),
    {
        let ghost cur = packet_log(dev.incoming@);
        match dev.read_packet() {
            Err(e) => {
                proof {
                    assert(cur =~= Seq::<Seq<u8>>::empty());
                    assert(done + device_to_stream_sent(cur) =~= done);
                }
                let a = session.on_direction_event(Direction::DeviceToStream, Err(e));
                return a;
            },
            Ok(packet) => {
                proof {
                    assert(cur.first() == packet@);
                    assert(packet_log(dev.incoming@) =~= cur.drop_first());
                }
                match stream.send_frame(packet.as_slice()) {
                    Ok(()) => {
                        proof {
                            assert(device_to_stream_sent(cur) == frame_of(packet@)
                                + device_to_stream_sent(cur.drop_first()));
                            assert(done + (frame_of(packet@) + device_to_stream_sent(
                                cur.drop_first(),
                            )) =~= (done + frame_of(packet@)) + device_to_stream_sent(
                                cur.drop_first(),
                            ));
                            done = done + frame_of(packet@);
                        }
                        let _ = session.on_direction_event(Direction::DeviceToStream, Ok(()));
                    },
                    Err(e) => {
                        proof {
                            assert(packet@.len() > MAX_PAYLOAD);
                            assert(done + device_to_stream_sent(cur) =~= done);
                        }
                        let a = session.on_direction_event(Direction::DeviceToStream, Err(e));
                        return a;
                    },
                }
            },
        }
    }
}

/// The packets the stream-to-device direction delivers from the bytes the
/// peer sent: every frame decoded before the stream ends or breaks.
pub open spec fn stream_to_device_packets(avail: Seq<u8>) -> Seq<Seq<u8>>
    decreases avail.len(),
{
    if avail.len() == 0 {
        Seq::empty()
    } else {
        match decode_result(avail) {
            Err(_) => Seq::empty(),
            Ok(p) => seq![p] + stream_to_device_packets(avail.skip(2 + p.len() as int)),
        }
    }
}

/// The failure that ends the stream-to-device direction: a clean close at a
/// frame boundary, or the decode failure of the broken tail.
pub open spec fn stream_to_device_error(avail: Seq<u8>) -> TunnelError
    decreases avail.len(),
{
    if avail.len() == 0 {
        TunnelError::ConnectionClosed
    } else {
        match decode_result(avail) {
            Err(e) => e,
            Ok(p) => stream_to_device_error(avail.skip(2 + p.len() as int)),
        }
    }
}

/// A stream whose bytes decode completely delivers exactly those packets and
/// ends with a clean close.
pub proof fn lemma_stream_to_device_complete(avail: Seq<u8>, ps: Seq<Seq<u8>>)
    requires
        decode_stream_spec(avail) == Ok::<Seq<Seq<u8>>, TunnelError>(ps),
    ensures
        stream_to_device_packets(avail) == ps,
        stream_to_device_error(avail) == TunnelError::ConnectionClosed,
    decreases avail.len(),
{
    if avail.len() == 0 {
        assert(ps =~= Seq::<Seq<u8>>::empty());
    } else {
        match decode_result(avail) {
            Err(_) => {},
            Ok(p) => {
                match decode_stream_spec(avail.skip(2 + p.len() as int)) {
                    Ok(rest) => {
                        lemma_stream_to_device_complete(avail.skip(2 + p.len() as int), rest);
                        assert(ps == seq![p] + rest);
                    },
                    Err(_) => {},
                }
            },
        }
    }
}

/// Runs one session's stream-to-device direction to its end: receive a
/// frame, write the packet to the device, until the stream ends or breaks;
/// then report the failure, which starts the session's close and cancels the
/// peer direction.
///
/// Decoded packets reach the device whole and in arrival order, and the
/// opposite direction's bytes (`sent`) and the device's outbound queue are
/// never touched.
pub fn pump_stream_to_device(
    stream: &mut MemoryStream,
    dev: &mut MemoryDevice,
    session: &mut TunnelSession,
) -> (a: SessionAction)
    requires
        old(session).state is Running,
        old(session).wf(),
        old(stream).wf(),
    ensures
        a == SessionAction::CancelOther,
        final(session).id == old(session).id,
        final(session).wf(),
        final(session).state is Closing,
        final(session).failed == Some(
            (Direction::StreamToDevice, stream_to_device_error(old(stream).remaining())),
        ),
        packet_log(final(dev).delivered@) == packet_log(old(dev).delivered@)
            + stream_to_device_packets(old(stream).remaining()),
        final(dev).incoming == old(dev).incoming,
        final(stream).sent == old(stream).sent,
        final(stream).to_receive == old(stream).to_receive,
        final(stream).wf(),
{
    let ghost full = old(stream).remaining();
    let ghost base = packet_log(old(dev).delivered@);
    let ghost mut done: Seq<Seq<u8>> = Seq::empty();
    proof {
        assert(base + done =~= base);
    }
    loop
        invariant
            session.state is Running,
            session.wf(),
            *session == *old(session),
            stream.wf(),
            full == old(stream).remaining(),
            base == packet_log(old(dev).delivered@),
            packet_log(dev.delivered@) == base + done,
            stream_to_device_packets(full) == done + stream_to_device_packets(
                stream.remaining(),
            ),
            stream_to_device_error(full) == stream_to_device_error(stream.remaining()),
            dev.incoming == old(dev).incoming,
            stream.sent == old(stream).sent,
            stream.to_receive == old(stream).to_receive,
        decreases stream.remaining().len(),
    {
        let ghost cur = stream.remaining();
        match stream.receive_frame() {
            Err(e) => {
                proof {
                    assert(done + stream_to_device_packets(cur) =~= done);
                }
                let a = session.on_direction_event(Direction::StreamToDevice, Err(e));
                return a;
            },
            Ok(packet) => {
                dev.write_packet(packet.as_slice());
                proof {
                    assert(stream_to_device_packets(cur) == seq![packet@]
                        + stream_to_device_packets(stream.remaining()));
                    assert(done + (seq![packet@] + stream_to_device_packets(stream.remaining()))
                        =~= done.push(packet@) + stream_to_device_packets(stream.remaining()));
                    assert(base + done.push(packet@) =~= (base + done).push(packet@));
                    done = done.push(packet@);
                }
                let _ = session.on_direction_event(Direction::StreamToDevice, Ok(()));
            },
        }
    }
}

} // verus!

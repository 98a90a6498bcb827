//! Frame codec: a packet travels as a 2-byte big-endian length prefix
//! followed by exactly that many payload bytes.

use vstd::prelude::*;

use crate::errors::TunnelError;
use vstd::slice::slice_subrange;
use vstd::slice::slice_to_vec;

verus! {

/// Largest payload the 16-bit length field can describe.
pub const MAX_PAYLOAD: usize = 65535;

/// The integer a big-endian 2-byte prefix denotes.
pub open spec fn be16(b0: u8, b1: u8) -> int {
    b0 * 256 + b1
}

/// Wire representation of one packet: big-endian length, then the payload.
pub open spec fn frame_of(p: Seq<u8>) -> Seq<u8>
    recommends
        p.len() <= MAX_PAYLOAD,
{
    seq![(p.len() as int / 256) as u8, (p.len() as int % 256) as u8] + p
}

/// Encodes one packet as a frame.
///
/// Succeeds exactly on packets that fit the length field; an oversized packet
/// is rejected locally and nothing is produced for the wire.
pub fn encode_frame(packet: &[u8]) -> (r: Result<Vec<u8>, TunnelError>)
    ensures
        packet@.len() <= MAX_PAYLOAD <==> r is Ok,
        r matches Ok(frame) ==> frame@ == frame_of(packet@),
        r matches Err(e) ==> e == TunnelError::FrameTooLarge,
{
    let n = packet.len();
    if n > MAX_PAYLOAD {
        return Err(TunnelError::FrameTooLarge);
    }
    let mut frame: Vec<u8> = Vec::new();
    frame.push((n / 256) as u8);
    frame.push((n % 256) as u8);
    let mut i: usize = 0;
    while i < n
        invariant
            n == packet@.len() <= MAX_PAYLOAD,
            i <= n,
            frame@ == frame_of(packet@).take(2 + i as int),
        decreases n - i,
    {
        frame.push(packet[i]);
        proof {
            assert(frame@ =~= frame_of(packet@).take(2 + (i + 1) as int));
        }
        i += 1;
    }
    proof {
        assert(frame@ =~= frame_of(packet@));
    }
    Ok(frame)
}

/// What decoding one frame from the front of the delivered bytes yields.
///
/// `avail` is everything the stream delivered before closing. A close with
/// nothing available is a clean close at a frame boundary; a close after a
/// partial length prefix or a partial payload is a truncated frame.
pub open spec fn decode_result(avail: Seq<u8>) -> Result<Seq<u8>, TunnelError> {
    if avail.len() == 0 {
        Err(TunnelError::ConnectionClosed)
    } else if avail.len() < 2 {
        Err(TunnelError::TruncatedFrame)
    } else if avail.len() < 2 + be16(avail[0], avail[1]) {
        Err(TunnelError::TruncatedFrame)
    } else {
        Ok(avail.subrange(2, 2 + be16(avail[0], avail[1])))
    }
}

/// Decodes one frame from the front of `avail`.
///
/// On success returns the payload and the number of bytes consumed
/// (prefix plus payload), so the caller can decode the next frame.
pub fn decode_frame(avail: &[u8]) -> (r: Result<(Vec<u8>, usize), TunnelError>)
    ensures
        r is Ok <==> decode_result(avail@) is Ok,
        r matches Ok(pc) ==> decode_result(avail@) == Ok::<Seq<u8>, TunnelError>(pc.0@)
            && pc.1 == 2 + pc.0@.len()
            && pc.1 <= avail@.len()
            && pc.0@.len() <= MAX_PAYLOAD,
        r matches Err(e) ==> decode_result(avail@) == Err::<Seq<u8>, TunnelError>(e),
{
    let len = avail.len();
    if len == 0 {
        return Err(TunnelError::ConnectionClosed);
    }
    if len < 2 {
        return Err(TunnelError::TruncatedFrame);
    }
    let n: usize = (avail[0] as usize) * 256 + (avail[1] as usize);
    if len - 2 < n {
        return Err(TunnelError::TruncatedFrame);
    }
    let payload = slice_to_vec(slice_subrange(avail, 2, 2 + n));
    Ok((payload, 2 + n))
}

/// What decoding a whole delivered byte sequence as consecutive frames
/// yields: the packets in order, or the first decode failure.
pub open spec fn decode_stream_spec(avail: Seq<u8>) -> Result<Seq<Seq<u8>>, TunnelError>
    decreases avail.len(),
{
    if avail.len() == 0 {
        Ok(Seq::empty())
    } else {
        match decode_result(avail) {
            Err(e) => Err(e),
            Ok(p) => match decode_stream_spec(avail.skip(2 + p.len() as int)) {
                Err(e) => Err(e),
                Ok(rest) => Ok(seq![p] + rest),
            },
        }
    }
}

/// Glue for the decode loop: frames already decoded, then the rest.
pub open spec fn prepend_decoded(
    done: Seq<Seq<u8>>,
    rest: Result<Seq<Seq<u8>>, TunnelError>,
) -> Result<Seq<Seq<u8>>, TunnelError> {
    match rest {
        Ok(r) => Ok(done + r),
        Err(e) => Err(e),
    }
}

/// Decodes every frame in `avail`, in order, or reports the first failure.
pub fn decode_stream(avail: &[u8]) -> (r: Result<Vec<Vec<u8>>, TunnelError>)
    ensures
        r matches Ok(ps) ==> decode_stream_spec(avail@)
            == Ok::<Seq<Seq<u8>>, TunnelError>(ps@.map_values(|p: Vec<u8>| p@)),
        r matches Err(e) ==> decode_stream_spec(avail@)
            == Err::<Seq<Seq<u8>>, TunnelError>(e),
{
    let mut out: Vec<Vec<u8>> = Vec::new();
    let mut i: usize = 0;
    proof {
        assert(avail@.skip(0) =~= avail@);
        assert(out@.map_values(|p: Vec<u8>| p@) =~= Seq::<Seq<u8>>::empty());
        match decode_stream_spec(avail@) {
            Ok(rest) => {
                assert(Seq::<Seq<u8>>::empty() + rest =~= rest);
            },
            Err(_) => {},
        }
    }
    while i < avail.len()
        invariant
            i <= avail@.len(),
            decode_stream_spec(avail@) == prepend_decoded(
                out@.map_values(|p: Vec<u8>| p@),
                decode_stream_spec(avail@.skip(i as int)),
            ),
        decreases avail@.len() - i,
    {
        let suffix = slice_subrange(avail, i, avail.len());
        proof {
            assert(suffix@ =~= avail@.skip(i as int));
        }
        match decode_frame(suffix) {
            Err(e) => {
                proof {
                    assert(decode_stream_spec(avail@.skip(i as int))
                        == Err::<Seq<Seq<u8>>, TunnelError>(e));
                }
                return Err(e);
            },
            Ok((packet, consumed)) => {
                proof {
                    let ghost rem = avail@.skip(i as int);
                    let ghost rem2 = avail@.skip(i + consumed as int);
                    assert(rem.skip(2 + packet@.len() as int) =~= rem2);
                    let ghost done = out@.map_values(|p: Vec<u8>| p@);
                    match decode_stream_spec(rem2) {
                        Ok(rest) => {
                            assert(decode_stream_spec(rem)
                                == Ok::<Seq<Seq<u8>>, TunnelError>(seq![packet@] + rest));
                            assert(done + (seq![packet@] + rest) =~= done.push(packet@) + rest);
                        },
                        Err(_) => {},
                    }
                }
                let ghost old_out = out@;
                out.push(packet);
                proof {
                    assert(out@.map_values(|p: Vec<u8>| p@)
                        =~= old_out.map_values(|p: Vec<u8>| p@).push(packet@));
                }
                i += consumed;
            },
        }
    }
    proof {
        assert(avail@.skip(i as int) =~= Seq::<u8>::empty());
        assert(out@.map_values(|p: Vec<u8>| p@) + Seq::<Seq<u8>>::empty()
            =~= out@.map_values(|p: Vec<u8>| p@));
    }
    Ok(out)
}

/// Round-trip framing: decoding a stream that starts with the encoding of a
/// packet yields exactly that packet, whatever follows the frame.
pub proof fn lemma_frame_round_trip(p: Seq<u8>, rest: Seq<u8>)
    requires
        p.len() <= MAX_PAYLOAD,
    ensures
        decode_result(frame_of(p) + rest) == Ok::<Seq<u8>, TunnelError>(p),
{
    let avail = frame_of(p) + rest;
    let n = p.len() as int;
    vstd::arithmetic::div_mod::lemma_fundamental_div_mod(n, 256);
    assert(avail[0] == (n / 256) as u8);
    assert(avail[1] == (n % 256) as u8);
    assert(0 <= n / 256 < 256 && 0 <= n % 256 < 256);
    assert(be16(avail[0], avail[1]) == n);
    assert(avail.subrange(2, 2 + n) =~= p);
}

/// Wire image of a whole packet sequence: each packet's frame, in order.
pub open spec fn wire_of(ps: Seq<Seq<u8>>) -> Seq<u8>
    decreases ps.len(),
{
    if ps.len() == 0 {
        Seq::empty()
    } else {
        frame_of(ps.first()) + wire_of(ps.drop_first())
    }
}

/// FIFO forwarding: a stream carrying the frames of packets in a given order
/// decodes back to exactly those packets, in that order.
pub proof fn lemma_stream_round_trip(ps: Seq<Seq<u8>>)
    requires
        forall|i: int| 0 <= i < ps.len() ==> #[trigger] ps[i].len() <= MAX_PAYLOAD,
    ensures
        decode_stream_spec(wire_of(ps)) == Ok::<Seq<Seq<u8>>, TunnelError>(ps),
    decreases ps.len(),
{
    if ps.len() == 0 {
        assert(ps =~= Seq::<Seq<u8>>::empty());
        assert(decode_stream_spec(wire_of(ps)) == Ok::<Seq<Seq<u8>>, TunnelError>(ps));
    } else {
        let p = ps.first();
        let w = wire_of(ps.drop_first());
        let avail = frame_of(p) + w;
        assert(p.len() <= MAX_PAYLOAD);
        assert(wire_of(ps) == avail);
        assert(avail.len() >= 2);
        lemma_frame_round_trip(p, w);
        assert(decode_result(avail) == Ok::<Seq<u8>, TunnelError>(p));
        assert(avail.skip(2 + p.len() as int) =~= w);
        lemma_stream_round_trip(ps.drop_first());
        assert(decode_stream_spec(avail)
            == Ok::<Seq<Seq<u8>>, TunnelError>(seq![p] + ps.drop_first()));
        assert(seq![p] + ps.drop_first() =~= ps);
    }
}

} // verus!

use vpn_rust::codec::{decode_stream, encode_frame};
use vpn_rust::errors::TunnelError;
use vpn_rust::session::{Direction, SessionAction, SessionState, TunnelSession};
use vpn_rust::sim::{pump_device_to_stream, pump_stream_to_device, MemoryDevice, MemoryStream};

#[test]
fn session_lifecycle() {
    let mut s = TunnelSession::new(7);
    assert_eq!(s.id, 7);
    assert_eq!(s.state, SessionState::Starting);
    s.start();
    assert_eq!(s.state, SessionState::Running);

    let a = s.on_direction_event(Direction::DeviceToStream, Ok(()));
    assert_eq!(a, SessionAction::Proceed);
    assert_eq!(s.state, SessionState::Running);

    let a = s.on_direction_event(Direction::StreamToDevice, Err(TunnelError::Transport));
    assert_eq!(a, SessionAction::CancelOther);
    assert_eq!(s.state, SessionState::Closing);
    assert_eq!(s.failed, Some((Direction::StreamToDevice, TunnelError::Transport)));

    // the cancelled direction winds down; the recorded failure stays first
    let a = s.on_direction_event(Direction::DeviceToStream, Err(TunnelError::DeviceIo));
    assert_eq!(a, SessionAction::Stop);
    assert_eq!(s.failed, Some((Direction::StreamToDevice, TunnelError::Transport)));

    s.finish_close();
    assert_eq!(s.state, SessionState::Terminated);
}

#[test]
fn forwards_packets_in_order() {
    // device queue [A, B, C]: the stream must observe A, B, C in that order
    let a = vec![1u8, 1, 1];
    let b = vec![2u8];
    let c = vec![3u8, 3];

    let mut dev = MemoryDevice::new();
    dev.queue_incoming(a.clone());
    dev.queue_incoming(b.clone());
    dev.queue_incoming(c.clone());
    let mut stream = MemoryStream::new(Vec::new());
    let mut session = TunnelSession::new(0);
    session.start();

    let action = pump_device_to_stream(&mut dev, &mut stream, &mut session);
    assert_eq!(action, SessionAction::CancelOther);
    assert_eq!(session.state, SessionState::Closing);
    assert_eq!(session.failed, Some((Direction::DeviceToStream, TunnelError::DeviceIo)));
    assert_eq!(decode_stream(&stream.sent).unwrap(), vec![a, b, c]);
}

#[test]
fn delivers_received_frames_in_order() {
    // peer sends frames for [X, Y]: the device must get X then Y, whole
    let x = vec![9u8, 9];
    let y = vec![8u8; 40];
    let mut wire = encode_frame(&x).unwrap();
    wire.extend_from_slice(&encode_frame(&y).unwrap());

    let mut dev = MemoryDevice::new();
    let mut stream = MemoryStream::new(wire);
    let mut session = TunnelSession::new(0);
    session.start();

    let action = pump_stream_to_device(&mut stream, &mut dev, &mut session);
    assert_eq!(action, SessionAction::CancelOther);
    assert_eq!(
        session.failed,
        Some((Direction::StreamToDevice, TunnelError::ConnectionClosed))
    );
    assert_eq!(dev.delivered, vec![x, y]);
}

#[test]
fn truncated_stream_reported_not_delivered_short() {
    let x = vec![5u8, 5, 5];
    let mut wire = encode_frame(&x).unwrap();
    wire.extend_from_slice(&[0u8, 9, 1, 2]); // frame of nine, only two bytes arrive

    let mut dev = MemoryDevice::new();
    let mut stream = MemoryStream::new(wire);
    let mut session = TunnelSession::new(0);
    session.start();

    pump_stream_to_device(&mut stream, &mut dev, &mut session);
    assert_eq!(
        session.failed,
        Some((Direction::StreamToDevice, TunnelError::TruncatedFrame))
    );
    // the complete frame arrived; the partial one never reached the device
    assert_eq!(dev.delivered, vec![x]);
}

#[test]
fn one_direction_failure_leaves_other_intact() {
    // the stream breaks mid-frame for the receive side while the send side
    // has an operation's worth of packets still to move
    let mut dev = MemoryDevice::new();
    dev.queue_incoming(vec![4u8, 4]);
    let mut stream = MemoryStream::new(vec![0u8]); // partial length prefix, then close
    let mut session = TunnelSession::new(0);
    session.start();

    let action = pump_stream_to_device(&mut stream, &mut dev, &mut session);
    assert_eq!(action, SessionAction::CancelOther);
    assert_eq!(session.state, SessionState::Closing);
    // the failing direction never touched the other direction's data
    assert_eq!(stream.sent, Vec::<u8>::new());
    assert_eq!(dev.incoming, vec![vec![4u8, 4]]);

    // the cancelled direction aborts its pending work cleanly
    let a = session.on_direction_event(Direction::DeviceToStream, Ok(()));
    assert_eq!(a, SessionAction::Stop);
    session.finish_close();
    assert_eq!(session.state, SessionState::Terminated);
}

#[test]
fn oversize_packet_closes_session_without_wire_bytes() {
    let mut dev = MemoryDevice::new();
    dev.queue_incoming(vec![0u8; 70000]);
    let mut stream = MemoryStream::new(Vec::new());
    let mut session = TunnelSession::new(0);
    session.start();

    pump_device_to_stream(&mut dev, &mut stream, &mut session);
    assert_eq!(
        session.failed,
        Some((Direction::DeviceToStream, TunnelError::FrameTooLarge))
    );
    assert_eq!(stream.sent, Vec::<u8>::new());
}

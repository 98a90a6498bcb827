use vpn_rust::codec::{decode_frame, decode_stream, encode_frame};
use vpn_rust::errors::TunnelError;

#[test]
fn frame_layout_small_packet() {
    let frame = encode_frame(&[9u8, 8, 7]).unwrap();
    assert_eq!(frame, vec![0u8, 3, 9, 8, 7]);
}

#[test]
fn frame_layout_two_byte_length() {
    let payload = vec![0xabu8; 300];
    let frame = encode_frame(&payload).unwrap();
    assert_eq!(frame[0], 1);
    assert_eq!(frame[1], 44);
    assert_eq!(&frame[2..], &payload[..]);
}

#[test]
fn round_trip_empty_packet() {
    let frame = encode_frame(&[]).unwrap();
    assert_eq!(frame, vec![0u8, 0]);
    let (packet, consumed) = decode_frame(&frame).unwrap();
    assert_eq!(packet, Vec::<u8>::new());
    assert_eq!(consumed, 2);
}

#[test]
fn round_trip_largest_packet() {
    let payload = vec![0x5au8; 65535];
    let frame = encode_frame(&payload).unwrap();
    assert_eq!(frame.len(), 65537);
    let (packet, consumed) = decode_frame(&frame).unwrap();
    assert_eq!(packet, payload);
    assert_eq!(consumed, 65537);
}

#[test]
fn oversize_packet_rejected() {
    let payload = vec![0u8; 65536];
    assert_eq!(encode_frame(&payload), Err(TunnelError::FrameTooLarge));
}

#[test]
fn clean_close_at_boundary() {
    assert_eq!(decode_frame(&[]), Err(TunnelError::ConnectionClosed));
}

#[test]
fn truncated_length_prefix() {
    assert_eq!(decode_frame(&[0u8]), Err(TunnelError::TruncatedFrame));
}

#[test]
fn truncated_payload() {
    // length says five, only three bytes follow
    assert_eq!(decode_frame(&[0u8, 5, 1, 2, 3]), Err(TunnelError::TruncatedFrame));
}

#[test]
fn decode_takes_only_first_frame() {
    let mut wire = encode_frame(&[1u8, 2]).unwrap();
    wire.extend_from_slice(&encode_frame(&[3u8]).unwrap());
    let (packet, consumed) = decode_frame(&wire).unwrap();
    assert_eq!(packet, vec![1u8, 2]);
    assert_eq!(consumed, 4);
}

#[test]
fn stream_of_frames_decodes_in_order() {
    let packets: Vec<Vec<u8>> = vec![vec![1u8, 2, 3], vec![], vec![0xffu8; 300]];
    let mut wire = Vec::new();
    for p in &packets {
        wire.extend_from_slice(&encode_frame(p).unwrap());
    }
    assert_eq!(decode_stream(&wire).unwrap(), packets);
}

#[test]
fn stream_with_truncated_tail_fails() {
    let mut wire = encode_frame(&[1u8, 2, 3]).unwrap();
    wire.extend_from_slice(&[0u8, 9, 1]);
    assert_eq!(decode_stream(&wire), Err(TunnelError::TruncatedFrame));
}

#[test]
fn empty_stream_is_no_frames() {
    assert_eq!(decode_stream(&[]).unwrap(), Vec::<Vec<u8>>::new());
}

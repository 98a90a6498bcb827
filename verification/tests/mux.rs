use vpn_rust::mux::{AcceptDecision, Multiplexer};
use vpn_rust::sim::MemoryDevice;

#[test]
fn accept_admits_fresh_identifiers() {
    let mut m = Multiplexer::new();
    assert_eq!(m.on_accept_result(true), AcceptDecision::Spawn(0));
    assert_eq!(m.on_accept_result(true), AcceptDecision::Spawn(1));
    assert_eq!(m.sessions, vec![0, 1]);
    assert_eq!(m.next_id, 2);
}

#[test]
fn failed_accept_changes_nothing() {
    let mut m = Multiplexer::new();
    m.on_accept_result(true);
    let d = m.on_accept_result(false);
    assert_eq!(d, AcceptDecision::KeepAccepting);
    assert_eq!(m.sessions, vec![0]);
    assert_eq!(m.next_id, 1);
}

#[test]
fn terminating_one_session_spares_the_others() {
    let mut m = Multiplexer::new();
    m.on_accept_result(true);
    m.on_accept_result(true);
    m.on_accept_result(true);
    m.on_session_terminated(1);
    assert_eq!(m.sessions, vec![0, 2]);
    // identifiers are never reused
    assert_eq!(m.on_accept_result(true), AcceptDecision::Spawn(3));
}

#[test]
fn terminating_unknown_session_is_harmless() {
    let mut m = Multiplexer::new();
    m.on_accept_result(true);
    m.on_session_terminated(42);
    assert_eq!(m.sessions, vec![0]);
}

#[test]
fn write_gate_is_exclusive() {
    let mut m = Multiplexer::new();
    m.on_accept_result(true);
    m.on_accept_result(true);

    assert!(m.try_acquire_write(0));
    assert!(!m.try_acquire_write(1));
    m.release_write(0);
    assert!(m.try_acquire_write(1));
    assert_eq!(m.write_holder, Some(1));
}

#[test]
fn dying_holder_releases_the_gate() {
    let mut m = Multiplexer::new();
    m.on_accept_result(true);
    m.on_accept_result(true);
    assert!(m.try_acquire_write(0));
    m.on_session_terminated(0);
    assert_eq!(m.write_holder, None);
    assert!(m.try_acquire_write(1));
}

#[test]
fn gate_survives_other_sessions_death() {
    let mut m = Multiplexer::new();
    m.on_accept_result(true);
    m.on_accept_result(true);
    assert!(m.try_acquire_write(0));
    m.on_session_terminated(1);
    assert_eq!(m.write_holder, Some(0));
}

#[test]
fn serialized_writes_stay_contiguous() {
    // two sessions write packets of different sizes through the write gate:
    // device sees each packet whole, never an interleaving of the two
    let m_packet = vec![0xaau8; 5];
    let n_packet = vec![0xbbu8; 3];

    let mut mux = Multiplexer::new();
    mux.on_accept_result(true);
    mux.on_accept_result(true);
    let mut dev = MemoryDevice::new();

    assert!(mux.try_acquire_write(0));
    dev.write_packet(&m_packet);
    mux.release_write(0);
    assert!(mux.try_acquire_write(1));
    dev.write_packet(&n_packet);
    mux.release_write(1);

    assert_eq!(dev.delivered, vec![m_packet.clone(), n_packet.clone()]);
    let observed: Vec<u8> = dev.delivered.concat();
    let mut expected = m_packet;
    expected.extend_from_slice(&n_packet);
    assert_eq!(observed, expected);
}

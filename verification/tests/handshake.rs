use udcp::handshake::{
    classify, syn_ack_message, Control, Handshake, HandshakeAction, PeerAddr, Wait, ACK_TIMEOUT_NANOS,
};

const SYN: [u8; 4] = *b"SYN\0";
const ACK: [u8; 4] = *b"ACK\0";

fn client(n: u8) -> PeerAddr {
    PeerAddr::V4 { ip: u32::from_be_bytes([127, 0, 0, n]), port: 40000 + n as u16 }
}

#[test]
fn classify_control_messages() {
    assert_eq!(classify(SYN), Control::Syn);
    assert_eq!(classify(ACK), Control::Ack);
    assert_eq!(classify(*b"SYN!"), Control::Other);
    assert_eq!(classify(*b"FIN\0"), Control::Other);
    assert_eq!(classify([0; 4]), Control::Other);
}

#[test]
fn syn_ack_message_format() {
    assert_eq!(syn_ack_message(5002), b"SYN-ACK5002\0".to_vec());
    assert_eq!(syn_ack_message(0), b"SYN-ACK0\0".to_vec());
    assert_eq!(syn_ack_message(65535), b"SYN-ACK65535\0".to_vec());
    assert_eq!(syn_ack_message(5002), format!("SYN-ACK{}\0", 5002).into_bytes());
}

#[test]
fn handshake_gives_ports_in_order() {
    let mut h = Handshake::new(5001);
    assert_eq!(h.wait(), Wait::Forever);
    assert_eq!(h.on_datagram(client(1), SYN, 0), HandshakeAction::Open(5002));
    assert_eq!(h.wait(), Wait::For(ACK_TIMEOUT_NANOS));
    assert_eq!(h.on_datagram(client(2), SYN, 1_000), HandshakeAction::Open(5003));
    // The oldest SYN-ACK is 1000 ns old.
    assert_eq!(h.wait(), Wait::For(ACK_TIMEOUT_NANOS - 1_000));
    // A repeated SYN gets the same port again.
    assert_eq!(h.on_datagram(client(1), SYN, 2_000), HandshakeAction::ResendSynAck(5002));
    assert_eq!(h.wait(), Wait::For(ACK_TIMEOUT_NANOS - 1_000));
    assert_eq!(h.on_datagram(client(1), ACK, 3_000), HandshakeAction::Established(5002));
    assert_eq!(h.wait(), Wait::For(ACK_TIMEOUT_NANOS - 2_000));
    assert_eq!(h.on_datagram(client(2), ACK, 4_000), HandshakeAction::Established(5003));
    assert_eq!(h.wait(), Wait::Forever);
    // A client that comes back starts over with a fresh port.
    assert_eq!(h.on_datagram(client(1), SYN, 5_000), HandshakeAction::Open(5004));
}

#[test]
fn unexpected_messages_stop_the_listener() {
    let mut h = Handshake::new(5001);
    assert_eq!(h.on_datagram(client(1), ACK, 0), HandshakeAction::Stop);
    assert_eq!(h.wait(), Wait::Forever);
    assert_eq!(h.on_datagram(client(1), SYN, 0), HandshakeAction::Open(5002));
    assert_eq!(h.on_datagram(client(2), ACK, 10), HandshakeAction::Stop);
    assert_eq!(h.on_datagram(client(1), *b"HEY\0", 10), HandshakeAction::Stop);
    // Stopping leaves the state as it was.
    assert_eq!(h.wait(), Wait::For(ACK_TIMEOUT_NANOS));
    assert_eq!(h.on_datagram(client(1), ACK, 20), HandshakeAction::Established(5002));
}

#[test]
fn wait_is_zero_once_a_syn_ack_is_overdue() {
    let mut h = Handshake::new(5001);
    assert_eq!(h.on_datagram(client(1), SYN, 0), HandshakeAction::Open(5002));
    assert_eq!(h.on_datagram(client(2), SYN, 2 * ACK_TIMEOUT_NANOS), HandshakeAction::Open(5003));
    assert_eq!(h.wait(), Wait::For(0));
}

#[test]
fn timeout_resends_only_overdue_syn_acks() {
    let mut h = Handshake::new(7000);
    assert_eq!(h.on_datagram(client(1), SYN, 0), HandshakeAction::Open(7001));
    assert_eq!(h.on_datagram(client(2), SYN, 3_000_000_000), HandshakeAction::Open(7002));
    let w = h.wait();
    assert!(h.on_timeout(4_999_999_999).is_empty());
    assert_eq!(h.on_timeout(ACK_TIMEOUT_NANOS), vec![(client(1), 7001)]);
    // The wait is not recomputed on a timeout.
    assert_eq!(h.wait(), w);
    assert_eq!(h.on_timeout(ACK_TIMEOUT_NANOS + 1), vec![]);
    assert_eq!(h.on_timeout(8_000_000_000), vec![(client(2), 7002)]);
    assert_eq!(h.on_timeout(10_000_000_000), vec![(client(1), 7001)]);
    assert_eq!(h.on_timeout(20_000_000_000), vec![(client(1), 7001), (client(2), 7002)]);
    // The clients are still pending, with their ports.
    assert_eq!(h.on_datagram(client(2), ACK, 20_000_000_001), HandshakeAction::Established(7002));
}

#[test]
fn clock_going_backwards_counts_as_no_time() {
    let mut h = Handshake::new(7000);
    assert_eq!(h.on_datagram(client(1), SYN, 10_000), HandshakeAction::Open(7001));
    assert_eq!(h.on_datagram(client(2), SYN, 5_000), HandshakeAction::Open(7002));
    assert_eq!(h.wait(), Wait::For(ACK_TIMEOUT_NANOS));
    assert!(h.on_timeout(0).is_empty());
}

#[test]
fn ipv6_peers_are_told_apart() {
    let a = PeerAddr::V6 { ip: 1, port: 9, flowinfo: 0, scope_id: 0 };
    let b = PeerAddr::V6 { ip: 1, port: 9, flowinfo: 0, scope_id: 1 };
    let mut h = Handshake::new(100);
    assert_eq!(h.on_datagram(a, SYN, 0), HandshakeAction::Open(101));
    assert_eq!(h.on_datagram(b, SYN, 0), HandshakeAction::Open(102));
    assert_eq!(h.on_datagram(a, SYN, 0), HandshakeAction::ResendSynAck(101));
}

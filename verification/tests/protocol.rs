use udcp::decimal::{parse_i32_ascii, push_decimal};
use udcp::frame::{encode_frame, push_header, parse_ack, requested_name, Incoming, DATA_SIZE, HEADER_SIZE, MAX_PACKET_SIZE};
use udcp::sender::{AckOutcome, Sender, WINDOW_SIZE};

fn decimal_of(n: u64) -> Vec<u8> {
    let mut v = Vec::new();
    push_decimal(n, &mut v);
    v
}

#[test]
fn decimal_writes_digits() {
    assert_eq!(decimal_of(0), b"0".to_vec());
    assert_eq!(decimal_of(7), b"7".to_vec());
    assert_eq!(decimal_of(5002), b"5002".to_vec());
    assert_eq!(decimal_of(u64::MAX), b"18446744073709551615".to_vec());
    let mut v = b"SYN".to_vec();
    push_decimal(42, &mut v);
    assert_eq!(v, b"SYN42".to_vec());
}

#[test]
fn parse_accepts_what_str_parse_accepts() {
    for s in [
        "000012", "-00001", "+00001", "123456789", "0", "-0", "+7", "999999", "2147483647", "-2147483648",
        "00000000000000000000000000001", "-0000000000002147483648",
    ] {
        let expected: Result<i32, _> = s.parse();
        assert_eq!(parse_i32_ascii(s.as_bytes()), expected.ok(), "{s}");
    }
    assert_eq!(parse_i32_ascii(b"000012"), Some(12));
    assert_eq!(parse_i32_ascii(b"-00001"), Some(-1));
    assert_eq!(parse_i32_ascii(b"+00001"), Some(1));
}

#[test]
fn parse_rejects_what_str_parse_rejects() {
    for s in [
        "", "+", "-", "12a456", " 12345", "1-2345", "--1", "+-1", "12345\0", "2147483648", "-2147483649",
        "99999999999999999999999", "-99999999999999999999999", "99999999999999999999x",
    ] {
        assert!(s.parse::<i32>().is_err(), "{s}");
        assert_eq!(parse_i32_ascii(s.as_bytes()), None, "{s}");
    }
}

#[test]
fn first_frame_has_header_and_first_chunk() {
    let data: Vec<u8> = (0..5000u32).map(|i| (i % 251) as u8).collect();
    let f = encode_frame(1, &data);
    assert_eq!(f.len(), MAX_PACKET_SIZE);
    assert_eq!(&f[..HEADER_SIZE], b"000001");
    assert_eq!(&f[HEADER_SIZE..], &data[..DATA_SIZE]);
}

#[test]
fn last_frame_is_short() {
    let data: Vec<u8> = (0..5000u32).map(|i| (i % 7) as u8).collect();
    let f = encode_frame(4, &data);
    assert_eq!(&f[..HEADER_SIZE], b"000004");
    assert_eq!(&f[HEADER_SIZE..], &data[3 * DATA_SIZE..]);
    assert_eq!(f.len(), HEADER_SIZE + 5000 - 3 * DATA_SIZE);
}

#[test]
fn frame_of_empty_tail_is_header_only() {
    let data = vec![1u8; DATA_SIZE];
    let f = encode_frame(2, &data);
    assert_eq!(f, b"000002".to_vec());
    let f = encode_frame(1, &[]);
    assert_eq!(f, b"000001".to_vec());
}

#[test]
fn header_zero_pads_sequence_numbers() {
    let data = vec![0u8; 20 * DATA_SIZE];
    assert_eq!(&encode_frame(13, &data)[..HEADER_SIZE], b"000013");
    assert_eq!(&encode_frame(20, &data)[..HEADER_SIZE], b"000020");
    for seq in [1usize, 9, 10, 17] {
        let f = encode_frame(seq, &data);
        let header = std::str::from_utf8(&f[..HEADER_SIZE]).unwrap();
        assert_eq!(header, format!("{:0>6}", seq));
        assert_eq!(header.parse::<usize>().unwrap(), seq);
    }
}

#[test]
fn frames_cover_the_buffer() {
    for len in [0usize, 1, DATA_SIZE - 1, DATA_SIZE, DATA_SIZE + 1, 5000, 3 * DATA_SIZE] {
        let data: Vec<u8> = (0..len).map(|i| (i % 253) as u8).collect();
        let count = (len + DATA_SIZE - 1) / DATA_SIZE;
        let mut joined = Vec::new();
        for seq in 1..=count {
            let f = encode_frame(seq, &data);
            assert!(f.len() <= MAX_PACKET_SIZE);
            joined.extend_from_slice(&f[HEADER_SIZE..]);
        }
        assert_eq!(joined, data);
    }
}

#[test]
fn parse_ack_reads_acknowledgements() {
    assert!(matches!(parse_ack(b"ACK000005\0"), Incoming::Ack(5)));
    assert!(matches!(parse_ack(b"ACK123456x"), Incoming::Ack(123456)));
    assert!(matches!(parse_ack(b"ACK-00001\0"), Incoming::Ack(-1)));
    assert!(matches!(parse_ack(b"ACK00000x\0"), Incoming::MalformedAck));
    assert!(matches!(parse_ack(b"ACK 12345\0"), Incoming::MalformedAck));
    assert!(matches!(parse_ack(b"ACK000005"), Incoming::Other));
    assert!(matches!(parse_ack(b"ACK000005\0\0"), Incoming::Other));
    assert!(matches!(parse_ack(b"NAK000005\0"), Incoming::Other));
    assert!(matches!(parse_ack(b""), Incoming::Other));
}

#[test]
fn requested_name_drops_terminator() {
    assert_eq!(requested_name(b"file.txt\n"), b"file.txt");
    assert_eq!(requested_name(b"x"), b"");
}

fn drain_sends(s: &mut Sender) -> Vec<usize> {
    let mut sent = Vec::new();
    while s.can_send() {
        sent.push(s.send_next());
    }
    sent
}

#[test]
fn empty_buffer_is_done_at_once() {
    let s = Sender::new(0);
    assert!(!s.in_progress());
    assert!(!s.can_send());
}

#[test]
fn small_transfer_completes() {
    let mut s = Sender::new(5000);
    assert!(s.in_progress());
    assert_eq!(drain_sends(&mut s), vec![1, 2, 3, 4]);
    assert!(s.in_progress());
    assert_eq!(s.timeout_retransmit(), 1);
    assert!(matches!(s.on_ack(2), AckOutcome::Acknowledged(2)));
    assert_eq!(s.timeout_retransmit(), 3);
    assert!(matches!(s.on_ack(1), AckOutcome::Outdated));
    assert!(s.in_progress());
    assert!(matches!(s.on_ack(4), AckOutcome::Acknowledged(2)));
    assert!(!s.in_progress());
    assert!(!s.can_send());
}

#[test]
fn window_limits_frames_in_flight() {
    let mut s = Sender::new(200 * DATA_SIZE);
    let sent = drain_sends(&mut s);
    assert_eq!(sent.len(), WINDOW_SIZE);
    assert_eq!(sent, (1..=WINDOW_SIZE).collect::<Vec<_>>());
    assert!(matches!(s.on_ack(10), AckOutcome::Acknowledged(10)));
    assert_eq!(drain_sends(&mut s), (81..=90).collect::<Vec<_>>());
}

#[test]
fn duplicates_trigger_retransmission() {
    let mut s = Sender::new(10 * DATA_SIZE);
    drain_sends(&mut s);
    assert!(matches!(s.on_ack(3), AckOutcome::Acknowledged(3)));
    // First duplicate uses up the credit, the second asks for frame 4 again.
    assert!(matches!(s.on_ack(3), AckOutcome::Duplicate));
    assert!(matches!(s.on_ack(3), AckOutcome::Retransmit(4)));
    assert!(matches!(s.on_ack(3), AckOutcome::Duplicate));
    assert!(matches!(s.on_ack(3), AckOutcome::Retransmit(4)));
    assert!(matches!(s.on_ack(10), AckOutcome::Acknowledged(7)));
    // Nothing in flight: duplicates are only counted.
    assert!(matches!(s.on_ack(10), AckOutcome::Duplicate));
    assert!(matches!(s.on_ack(10), AckOutcome::Duplicate));
    assert!(!s.in_progress());
}

#[test]
fn initial_duplicate_of_zero() {
    let mut s = Sender::new(3 * DATA_SIZE);
    drain_sends(&mut s);
    assert!(matches!(s.on_ack(0), AckOutcome::Duplicate));
    assert!(matches!(s.on_ack(0), AckOutcome::Retransmit(1)));
    assert!(matches!(s.on_ack(-5), AckOutcome::Outdated));
}

#[test]
fn header_keeps_six_digits() {
    let header = |seq: usize| {
        let mut v = Vec::new();
        push_header(seq, &mut v);
        v
    };
    assert_eq!(header(1), b"000001".to_vec());
    assert_eq!(header(999_999), b"999999".to_vec());
    // The frame buffer is written with `{:0>6}`, then only its first 6 bytes go out.
    assert_eq!(header(1_000_000), b"100000".to_vec());
    assert_eq!(header(1_234_567), b"123456".to_vec());
    let mut v = b"xy".to_vec();
    push_header(42, &mut v);
    assert_eq!(v, b"xy000042".to_vec());
}

//! Data frames and acknowledgements exchanged once a connection is established.
//!
//! A data frame is a 6-byte ASCII header holding the frame's sequence number,
//! zero-padded, followed by at most `DATA_SIZE` bytes of payload. Frame `seq`
//! (counted from 1) carries the bytes `(seq - 1) * DATA_SIZE ..` of the buffer.
//! An acknowledgement is a 10-byte datagram `ACK` + 6 ASCII digits + one more byte.

use vstd::prelude::*;
use crate::decimal::{
    all_digits, decimal, is_digit, lemma_decimal_len, lemma_decimal_value, lemma_zero_padded_value, parse_i32, parse_i32_ascii,
    pow10, push_decimal, zero_padded,
};

verus! {

/// Bytes of the sequence-number header that starts each data frame.
pub const HEADER_SIZE: usize = 6;

/// Largest datagram the protocol sends.
pub const MAX_PACKET_SIZE: usize = 1472;

/// Largest payload a data frame carries.
pub const DATA_SIZE: usize = MAX_PACKET_SIZE - HEADER_SIZE;

/// Length of an acknowledgement datagram.
pub const ACK_SIZE: usize = 10;

/// First byte of the payload of frame `seq`.
pub open spec fn chunk_start(seq: nat) -> int {
    (seq - 1) * DATA_SIZE
}

/// Payload of frame `seq` of `data`: up to `DATA_SIZE` bytes from `chunk_start(seq)`.
pub open spec fn payload(data: Seq<u8>, seq: nat) -> Seq<u8> {
    let start = chunk_start(seq);
    let end = if data.len() - start < DATA_SIZE { data.len() as int } else { start + DATA_SIZE };
    data.subrange(start, end)
}

/// Header of frame `seq`: the first 6 bytes of `seq` in decimal, zero-padded to 6.
pub open spec fn header(seq: nat) -> Seq<u8> {
    zero_padded(seq, HEADER_SIZE as nat).take(HEADER_SIZE as int)
}

/// The datagram that carries frame `seq` of `data`.
pub open spec fn frame(data: Seq<u8>, seq: nat) -> Seq<u8> {
    header(seq) + payload(data, seq)
}

/// Number of frames needed to carry `len` bytes.
pub open spec fn frame_count(len: nat) -> nat {
    ((len + DATA_SIZE - 1) / (DATA_SIZE as int)) as nat
}

/// Appends the header of frame `seq` to `out`: `seq` in decimal, zero-padded to 6
/// digits; only the first 6 digits of a longer number fit.
pub fn push_header(seq: usize, out: &mut Vec<u8>)
    ensures
        final(out)@ == old(out)@ + header(seq as nat),
{
    let mut digits: Vec<u8> = Vec::new();
    push_decimal(seq as u64, &mut digits);
    assert(digits@ =~= decimal(seq as nat));
    let n = digits.len();
    let ghost padded = zero_padded(seq as nat, HEADER_SIZE as nat);
    let ghost before = out@;
    let mut k: usize = 0;
    if n < HEADER_SIZE {
        while k < HEADER_SIZE - n
            invariant
                n == digits@.len(),
                n < HEADER_SIZE,
                k <= HEADER_SIZE - n,
                out@ == before + Seq::new(k as nat, |i: int| 48u8),
            decreases HEADER_SIZE - n - k,
        {
            out.push(48u8);
            k = k + 1;
            assert(out@ =~= before + Seq::new(k as nat, |i: int| 48u8));
        }
    }
    let mut j: usize = 0;
    let take = if n < HEADER_SIZE { n } else { HEADER_SIZE };
    while j < take
        invariant
            n == digits@.len(),
            take == (if n < HEADER_SIZE { n } else { HEADER_SIZE }),
            j <= take,
            digits@ == decimal(seq as nat),
            k == (if n < HEADER_SIZE { (HEADER_SIZE - n) as usize } else { 0usize }),
            out@ == before + Seq::new(k as nat, |i: int| 48u8) + digits@.take(j as int),
        decreases take - j,
    {
        out.push(digits[j]);
        j = j + 1;
        assert(out@ =~= before + Seq::new(k as nat, |i: int| 48u8) + digits@.take(j as int));
    }
    assert(Seq::new(k as nat, |i: int| 48u8) + digits@.take(take as int) =~= header(seq as nat));
}

/// True when frame `seq` of a buffer of `len` bytes starts within it (at its end at
/// most), as `encode_frame` needs.
pub fn frame_len_ok(seq: usize, len: usize) -> (r: bool)
    ensures
        r == (1 <= seq && (seq - 1) * DATA_SIZE <= len),
{
    seq >= 1 && (seq - 1) <= len / DATA_SIZE
}

/// Builds the datagram that carries frame `seq` of `data`.
pub fn encode_frame(seq: usize, data: &[u8]) -> (f: Vec<u8>)
    requires
        1 <= seq,
        (seq - 1) * DATA_SIZE <= data.len(),
    ensures
        f@ == frame(data@, seq as nat),
        f@.len() <= MAX_PACKET_SIZE,
{
    let mut f: Vec<u8> = Vec::with_capacity(MAX_PACKET_SIZE);
    push_header(seq, &mut f);
    let start = (seq - 1) * DATA_SIZE;
    let len = data.len();
    let remaining = len - start;
    let data_len = if remaining < DATA_SIZE { remaining } else { DATA_SIZE };
    let ghost h = f@;
    let mut i: usize = 0;
    while i < data_len
        invariant
            start + data_len <= len,
            len == data@.len(),
            i <= data_len,
            f@ == h + data@.subrange(start as int, start + i),
        decreases data_len - i,
    {
        f.push(data[start + i]);
        i = i + 1;
        assert(f@ =~= h + data@.subrange(start as int, start + i));
    }
    proof {
        assert(h.len() == HEADER_SIZE) by {
            lemma_decimal_value(seq as nat);
        }
    }
    f
}


/// What a received datagram is, as far as the sender is concerned.
pub enum Incoming {
    /// An acknowledgement carrying this sequence number.
    Ack(i32),
    /// Shaped like an acknowledgement, but its number is not a valid integer.
    MalformedAck,
    /// Anything else.
    Other,
}

/// True when `p` has the shape of an acknowledgement: 10 bytes starting with `ACK`.
pub open spec fn is_ack_shaped(p: Seq<u8>) -> bool {
    p.len() == ACK_SIZE && p[0] == 65u8 && p[1] == 67u8 && p[2] == 75u8
}

/// The six bytes of an acknowledgement that hold its sequence number.
pub open spec fn ack_digits(p: Seq<u8>) -> Seq<u8> {
    p.subrange(3, 9)
}

/// Reads a datagram received from the peer during a transfer.
pub fn parse_ack(packet: &[u8]) -> (r: Incoming)
    ensures
        r is Other <==> !is_ack_shaped(packet@),
        is_ack_shaped(packet@) ==> match parse_i32(ack_digits(packet@)) {
            Some(v) => r == Incoming::Ack(v as i32),
            None => r is MalformedAck,
        },
{
    if packet.len() == ACK_SIZE && packet[0] == 65u8 && packet[1] == 67u8 && packet[2] == 75u8 {
        let digits = &packet[3..9];
        match parse_i32_ascii(digits) {
            Some(v) => Incoming::Ack(v),
            None => Incoming::MalformedAck,
        }
    } else {
        Incoming::Other
    }
}

/// Frame headers carry sequence numbers faithfully: below one million, the header
/// of frame `seq` parses back as `seq`, and it is always exactly `HEADER_SIZE` digits.
pub proof fn lemma_header_roundtrip(seq: nat)
    ensures
        header(seq).len() == HEADER_SIZE,
        all_digits(header(seq)),
        seq < 1_000_000 ==> parse_i32(header(seq)) == Some(seq as int),
{
    lemma_zero_padded_value(seq, HEADER_SIZE as nat);
    let z = zero_padded(seq, HEADER_SIZE as nat);
    assert forall|i: int| 0 <= i < header(seq).len() implies is_digit(#[trigger] header(seq)[i]) by {
        assert(header(seq)[i] == z[i]);
    }
    if seq < 1_000_000 {
        reveal_with_fuel(pow10, 7);
        lemma_decimal_len(seq, 6);
        assert(header(seq) =~= z);
        assert(header(seq)[0] == z[0]);
        assert(is_digit(z[0]));
    }
}


/// The payloads of frames `1..=k`, one after the other.
pub open spec fn payloads(data: Seq<u8>, k: nat) -> Seq<u8>
    decreases k,
{
    if k == 0 {
        Seq::empty()
    } else {
        payloads(data, (k - 1) as nat) + payload(data, k)
    }
}

proof fn lemma_payloads_prefix(data: Seq<u8>, k: nat)
    requires
        k == 0 || chunk_start(k) < data.len(),
    ensures
        payloads(data, k) =~= data.take(if k * DATA_SIZE < data.len() { k * DATA_SIZE } else { data.len() as int }),
    decreases k,
{
    if k > 0 {
        lemma_payloads_prefix(data, (k - 1) as nat);
    }
}

proof fn lemma_frame_count(len: nat)
    ensures
        frame_count(len) * DATA_SIZE >= len,
        len > 0 ==> chunk_start(frame_count(len)) < len,
        len == 0 ==> frame_count(len) == 0,
{
    let c = frame_count(len);
    assert(c * 1466 >= len && (len > 0 ==> (c - 1) * 1466 < len) && (len == 0 ==> c == 0)) by (nonlinear_arith)
        requires
            c == (len + 1465) / 1466,
    ;
}

/// Frames `1..=frame_count(len)` carry the whole buffer, in order, each byte once.
pub proof fn lemma_frames_cover(data: Seq<u8>)
    ensures
        payloads(data, frame_count(data.len())) =~= data,
{
    lemma_frame_count(data.len());
    lemma_payloads_prefix(data, frame_count(data.len()));
}


/// The name of the file a client asks for: its request without the final byte.
pub fn requested_name(request: &[u8]) -> (name: &[u8])
    requires
        request@.len() >= 1,
    ensures
        name@ == request@.drop_last(),
{
    &request[0..request.len() - 1]
}

}

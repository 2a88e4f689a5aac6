//! Decisions of the sending side of a transfer: which frame goes out next, what a
//! timeout or an acknowledgement triggers. The caller performs the I/O: it sends the
//! frames that these functions name and keeps one send time per frame in flight.

use vstd::prelude::*;
use crate::frame::{chunk_start, frame_count, DATA_SIZE};

verus! {

/// Frames in flight at most (sent and not yet acknowledged).
pub const WINDOW_SIZE: usize = 80;

/// Duplicate acknowledgements tolerated before the frame after them is sent again.
pub const MAX_DUP_ACK: i32 = 1;

/// The state of a transfer, as plain numbers.
pub struct SenderView {
    /// Length of the buffer being sent.
    pub len: nat,
    /// Sequence number of the next new frame.
    pub next_seq: nat,
    /// Highest sequence number acknowledged so far (0 before any).
    pub acked: int,
    /// Frames sent and not yet acknowledged.
    pub window: nat,
    /// Duplicate acknowledgements still tolerated.
    pub dup_credit: int,
}

impl SenderView {
    /// Frames remain to be sent or to be acknowledged.
    pub open spec fn in_progress(self) -> bool {
        chunk_start(self.next_seq) < self.len || self.window != 0
    }

    /// A new frame exists and the window has room for it.
    pub open spec fn can_send(self) -> bool {
        chunk_start(self.next_seq) < self.len && self.window < WINDOW_SIZE
    }

    /// The invariant that every operation keeps.
    pub open spec fn inv(self) -> bool {
        &&& self.next_seq >= 1
        &&& self.acked >= 0
        &&& self.window == self.next_seq - 1 - self.acked
        &&& self.window <= WINDOW_SIZE
        &&& 0 <= self.dup_credit <= MAX_DUP_ACK
        &&& (self.next_seq == 1 || chunk_start((self.next_seq - 1) as nat) < self.len)
        &&& self.len + DATA_SIZE <= usize::MAX
        &&& frame_count(self.len) < i32::MAX
    }
}

/// What an acknowledgement asks of the sender.
pub enum AckOutcome {
    /// Too many duplicates: this frame must be sent again (and its send time reset).
    Retransmit(usize),
    /// A duplicate acknowledgement, counted.
    Duplicate,
    /// An acknowledgement older than the last one: nothing to do.
    Outdated,
    /// This many frames, the oldest in flight, are now acknowledged.
    Acknowledged(usize),
}

/// True when a buffer of `len` bytes can be sent: its offsets and its frame
/// numbers fit the integer types of the protocol.
pub fn transfer_len_ok(len: usize) -> (r: bool)
    ensures
        r == (len + DATA_SIZE <= usize::MAX && frame_count(len as nat) < i32::MAX),
{
    len <= usize::MAX - DATA_SIZE && (len + DATA_SIZE - 1) / DATA_SIZE < (i32::MAX as usize)
}

/// Sending side of a transfer of `len` bytes.
pub struct Sender {
    len: usize,
    seq: usize,
    acked: i32,
    window: usize,
    dup_ack: i32,
}

impl View for Sender {
    type V = SenderView;

    closed spec fn view(&self) -> SenderView {
        SenderView {
            len: self.len as nat,
            next_seq: self.seq as nat,
            acked: self.acked as int,
            window: self.window as nat,
            dup_credit: self.dup_ack as int,
        }
    }
}

impl Sender {
    #[verifier::type_invariant]
    closed spec fn wf(self) -> bool {
        self@.inv()
    }

    /// Starts the transfer of a buffer of `len` bytes.
    pub fn new(len: usize) -> (s: Self)
        requires
            len + DATA_SIZE <= usize::MAX,
            frame_count(len as nat) < i32::MAX,
        ensures
            s@ == (SenderView { len: len as nat, next_seq: 1, acked: 0, window: 0, dup_credit: MAX_DUP_ACK as int }),
            s@.inv(),
    {
        Sender { len, seq: 1, acked: 0, window: 0, dup_ack: MAX_DUP_ACK }
    }

    /// True while frames remain to be sent or acknowledged; once false, every frame
    /// of the buffer has been acknowledged.
    pub fn in_progress(&self) -> (r: bool)
        ensures
            self@.inv(),
            r == self@.in_progress(),
            !r ==> self@.acked == frame_count(self@.len) && self@.next_seq == frame_count(self@.len) + 1,
    {
        proof {
            use_type_invariant(self);
            if !self@.in_progress() {
                lemma_finished_all_acknowledged(self@);
            }
        }
        (self.seq - 1) * DATA_SIZE < self.len || self.window != 0
    }

    /// True when a new frame can be sent now. While the transfer is in progress and
    /// nothing can be sent, some frame is in flight.
    pub fn can_send(&self) -> (r: bool)
        ensures
            self@.inv(),
            r == self@.can_send(),
            !r && self@.in_progress() ==> self@.window > 0,
    {
        proof {
            use_type_invariant(self);
        }
        (self.seq - 1) * DATA_SIZE < self.len && self.window < WINDOW_SIZE
    }

    /// Takes the next new frame: returns its sequence number and counts it in flight.
    pub fn send_next(&mut self) -> (seq: usize)
        requires
            old(self)@.can_send(),
        ensures
            seq == old(self)@.next_seq,
            chunk_start(seq as nat) < old(self)@.len,
            final(self)@ == (SenderView {
                next_seq: old(self)@.next_seq + 1,
                window: old(self)@.window + 1,
                ..old(self)@
            }),
            final(self)@.inv(),
    {
        proof {
            use_type_invariant(&*self);
        }
        let seq = self.seq;
        *self = Sender { len: self.len, seq: seq + 1, acked: self.acked, window: self.window + 1, dup_ack: self.dup_ack };
        proof {
            use_type_invariant(&*self);
        }
        seq
    }

    /// The frame to send again when the oldest frame in flight timed out: the first
    /// unacknowledged one.
    pub fn timeout_retransmit(&self) -> (seq: usize)
        requires
            self@.window > 0,
        ensures
            self@.inv(),
            seq == self@.acked + 1,
            self@.acked < seq < self@.next_seq,
            chunk_start(seq as nat) < self@.len,
    {
        proof {
            use_type_invariant(self);
            lemma_in_flight_frames_exist(self@, self@.acked + 1);
        }
        (self.acked as usize) + 1
    }

    /// True when `ack` does not go beyond the frames sent, as `on_ack` needs.
    pub fn accepts(&self, ack: i32) -> (r: bool)
        ensures
            r == (ack <= self@.acked + self@.window),
    {
        proof {
            use_type_invariant(self);
        }
        (ack as i64) <= (self.acked as i64) + (self.window as i64)
    }

    /// Sequence number of the next new frame.
    pub fn next_seq(&self) -> (r: usize)
        ensures
            r == self@.next_seq,
    {
        self.seq
    }

    /// Highest sequence number acknowledged so far.
    pub fn acked(&self) -> (r: i32)
        ensures
            r == self@.acked,
    {
        self.acked
    }

    /// Number of frames in flight.
    pub fn in_flight(&self) -> (r: usize)
        ensures
            r == self@.window,
    {
        self.window
    }

    /// Handles an acknowledgement of every frame up to `ack`. An acknowledgement
    /// beyond the frames sent is not accepted.
    pub fn on_ack(&mut self, ack: i32) -> (r: AckOutcome)
        requires
            ack <= old(self)@.acked + old(self)@.window,
        ensures
            (final(self)@, r) == ack_step(old(self)@, ack),
            final(self)@.inv(),
    {
        proof {
            use_type_invariant(&*self);
        }
        let (dup_ack, acked, window, r) = if ack == self.acked {
            if self.dup_ack <= 0 {
                if self.window > 0 {
                    (MAX_DUP_ACK, self.acked, self.window, AckOutcome::Retransmit((ack as usize) + 1))
                } else {
                    (MAX_DUP_ACK, self.acked, self.window, AckOutcome::Duplicate)
                }
            } else {
                (self.dup_ack - 1, self.acked, self.window, AckOutcome::Duplicate)
            }
        } else if ack < self.acked {
            (self.dup_ack, self.acked, self.window, AckOutcome::Outdated)
        } else {
            let num = (ack - self.acked) as usize;
            (self.dup_ack, ack, self.window - num, AckOutcome::Acknowledged(num))
        };
        *self = Sender { len: self.len, seq: self.seq, acked, window, dup_ack };
        proof {
            use_type_invariant(&*self);
        }
        r
    }
}

/// The effect of an acknowledgement of every frame up to `ack`:
/// - the same number as the last one is a duplicate: it uses up one credit, and once
///   none is left it restores them and asks that the first frame in flight (if any)
///   be sent again;
/// - an older number changes nothing;
/// - a newer number acknowledges the frames up to it, which leave the window.
pub open spec fn ack_step(v: SenderView, ack: i32) -> (SenderView, AckOutcome) {
    if ack == v.acked {
        if v.dup_credit <= 0 {
            (SenderView { dup_credit: MAX_DUP_ACK as int, ..v },
             if v.window > 0 { AckOutcome::Retransmit((ack + 1) as usize) } else { AckOutcome::Duplicate })
        } else {
            (SenderView { dup_credit: v.dup_credit - 1, ..v }, AckOutcome::Duplicate)
        }
    } else if ack < v.acked {
        (v, AckOutcome::Outdated)
    } else {
        (SenderView { acked: ack as int, window: (v.window - (ack - v.acked)) as nat, ..v },
         AckOutcome::Acknowledged((ack - v.acked) as usize))
    }
}

/// A frame that an acknowledgement asks to send again is in flight: sent and not yet
/// acknowledged, and a real frame of the buffer.
pub proof fn lemma_retransmit_in_flight(v: SenderView, ack: i32)
    requires
        v.inv(),
        ack <= v.acked + v.window,
    ensures
        ack_step(v, ack).1 matches AckOutcome::Retransmit(s) ==> v.acked < s < v.next_seq && chunk_start(s as nat) < v.len,
{
    if ack == v.acked && v.dup_credit <= 0 && v.window > 0 {
        lemma_in_flight_frames_exist(v, v.acked + 1);
    }
}

/// Acknowledgements never move backwards: the acknowledged count only grows, the
/// next sequence number is untouched, and a frame leaves the window only once
/// acknowledged.
pub proof fn lemma_ack_monotonic(v: SenderView, ack: i32)
    requires
        v.inv(),
        ack <= v.acked + v.window,
    ensures
        ack_step(v, ack).0.acked >= v.acked,
        ack_step(v, ack).0.next_seq == v.next_seq,
        ack_step(v, ack).0.acked + ack_step(v, ack).0.window == v.acked + v.window,
        ack_step(v, ack).0.inv(),
{
}

/// Every frame in flight is a real frame of the buffer.
proof fn lemma_in_flight_frames_exist(v: SenderView, s: int)
    requires
        v.inv(),
        v.acked < s < v.next_seq,
    ensures
        chunk_start(s as nat) < v.len,
{
    assert(chunk_start(s as nat) <= chunk_start((v.next_seq - 1) as nat)) by (nonlinear_arith)
        requires
            1 <= s <= v.next_seq - 1,
    ;
}

/// A transfer is over exactly when every frame of the buffer has been sent and
/// acknowledged: then the acknowledged count is the number of frames.
pub proof fn lemma_finished_all_acknowledged(v: SenderView)
    requires
        v.inv(),
        !v.in_progress(),
    ensures
        v.acked == frame_count(v.len),
        v.next_seq == frame_count(v.len) + 1,
{
    let n = v.next_seq;
    let len = v.len;
    assert(n - 1 == (len + 1465) / 1466) by (nonlinear_arith)
        requires
            n >= 1,
            (n - 1) * 1466 >= len,
            n == 1 || (n - 2) * 1466 < len,
    ;
}


/// An acknowledgement older than the last one is ignored: the sender stays exactly
/// as it was, its duplicate credit included, and whatever acknowledgement comes next
/// is handled as if the old one had never arrived.
pub proof fn lemma_outdated_ack_ignored(v: SenderView, old_ack: i32, ack: i32)
    requires
        old_ack < v.acked,
    ensures
        ack_step(v, old_ack).0 == v,
        ack_step(v, old_ack).1 is Outdated,
        ack_step(ack_step(v, old_ack).0, ack) == ack_step(v, ack),
{
}

/// With its full credit, the sender answers the first duplicate of its last
/// acknowledgement by only counting it; the second one in a row asks for the first
/// frame in flight again (when one is in flight) and restores the credit. A
/// retransmission never comes while some credit is left.
pub proof fn lemma_duplicate_threshold(v: SenderView)
    requires
        v.inv(),
        v.acked <= i32::MAX,
    ensures
        ack_step(v, v.acked as i32).1 is Retransmit ==> v.dup_credit <= 0,
        v.dup_credit == MAX_DUP_ACK ==> {
            let (v1, r1) = ack_step(v, v.acked as i32);
            let (v2, r2) = ack_step(v1, v.acked as i32);
            &&& r1 is Duplicate
            &&& v1.acked == v.acked && v1.window == v.window && v1.next_seq == v.next_seq
            &&& v.window > 0 ==> r2 == AckOutcome::Retransmit((v.acked + 1) as usize)
            &&& v2.dup_credit == MAX_DUP_ACK
        },
{
}

}

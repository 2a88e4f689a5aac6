//! Decisions of the listener during the three-way handshake.
//!
//! A client sends `SYN\0`; the listener answers `SYN-ACK<port>\0`, where `<port>` is
//! a fresh port on which a socket dedicated to that client is opened; the client
//! confirms with `ACK\0`, and the connection on that port is handed to the
//! application. Until it confirms, a client is pending: a repeated `SYN` or a
//! timeout sends its `SYN-ACK` again. The caller performs the I/O and reads the
//! clock (`now`, in nanoseconds of a monotonic clock); these functions decide.

use vstd::prelude::*;
use crate::decimal::{decimal, is_digit, lemma_decimal_value, parse_i32, push_decimal};

verus! {

/// Time after which a `SYN-ACK` left unconfirmed is sent again: 5 s, in nanoseconds.
pub const ACK_TIMEOUT_NANOS: u64 = 5_000_000_000;

/// Address of a client, as plain values.
#[derive(Clone, Copy, Debug, PartialEq, Eq, Structural)]
#[allow(inconsistent_fields)]
pub enum PeerAddr {
    V4 { ip: u32, port: u16 },
    V6 { ip: u128, port: u16, flowinfo: u32, scope_id: u32 },
}

/// A control message of the handshake. The listener reads exactly 4 bytes.
#[derive(Clone, Copy, Debug, PartialEq, Eq, Structural)]
pub enum Control {
    Syn,
    Ack,
    Other,
}

/// What the 4 bytes read by the listener say.
pub open spec fn control_of(buf: Seq<u8>) -> Control {
    if buf =~= seq![83u8, 89u8, 78u8, 0u8] {
        Control::Syn
    } else if buf =~= seq![65u8, 67u8, 75u8, 0u8] {
        Control::Ack
    } else {
        Control::Other
    }
}

/// Classifies the 4 bytes read by the listener: `SYN\0`, `ACK\0` or anything else.
pub fn classify(buf: [u8; 4]) -> (c: Control)
    ensures
        c == control_of(buf@),
{
    if buf[0] == 83u8 && buf[1] == 89u8 && buf[2] == 78u8 && buf[3] == 0u8 {
        assert(buf@ =~= seq![83u8, 89u8, 78u8, 0u8]);
        Control::Syn
    } else if buf[0] == 65u8 && buf[1] == 67u8 && buf[2] == 75u8 && buf[3] == 0u8 {
        assert(buf@ =~= seq![65u8, 67u8, 75u8, 0u8]);
        Control::Ack
    } else {
        Control::Other
    }
}

/// The bytes of `SYN-ACK<port>\0`.
pub open spec fn syn_ack(port: nat) -> Seq<u8> {
    seq![83u8, 89u8, 78u8, 45u8, 65u8, 67u8, 75u8] + decimal(port) + seq![0u8]
}

/// Builds the `SYN-ACK` that tells a client the port of its connection.
pub fn syn_ack_message(port: u16) -> (m: Vec<u8>)
    ensures
        m@ == syn_ack(port as nat),
{
    let mut m: Vec<u8> = Vec::with_capacity(13);
    m.push(83u8);
    m.push(89u8);
    m.push(78u8);
    m.push(45u8);
    m.push(65u8);
    m.push(67u8);
    m.push(75u8);
    push_decimal(port as u64, &mut m);
    m.push(0u8);
    assert(m@ =~= syn_ack(port as nat));
    m
}

/// A client whose handshake is not finished.
#[derive(Clone, Copy, Debug, PartialEq, Eq, Structural)]
pub struct Pending {
    /// Where the client writes from.
    pub addr: PeerAddr,
    /// Port of the socket opened for it, announced in its `SYN-ACK`.
    pub port: u16,
    /// When its `SYN-ACK` was last sent.
    pub last_sent: u64,
}

/// How long the listener may wait for the next datagram before checking timeouts.
#[derive(Clone, Copy, Debug, PartialEq, Eq, Structural)]
pub enum Wait {
    /// This many nanoseconds.
    For(u64),
    /// Without limit.
    Forever,
}

/// The listener's handshake state, as plain values.
pub struct HandshakeView {
    pub pending: Seq<Pending>,
    pub next_port: nat,
    pub wait: Wait,
}

/// Time elapsed since `then`, zero if `then` is later (as `Instant::elapsed`).
pub open spec fn elapsed(now: u64, then: u64) -> nat {
    if now >= then { (now - then) as nat } else { 0 }
}

/// Longest time elapsed since the `SYN-ACK` of a pending client.
pub open spec fn max_elapsed(s: Seq<Pending>, now: u64) -> nat
    decreases s.len(),
{
    if s.len() == 0 {
        0
    } else {
        let e = elapsed(now, s.last().last_sent);
        let m = max_elapsed(s.drop_last(), now);
        if e > m { e } else { m }
    }
}

/// The wait computed after a datagram: until the oldest pending `SYN-ACK` times out,
/// or forever when no client is pending.
pub open spec fn wait_after(s: Seq<Pending>, now: u64) -> Wait {
    if s.len() == 0 {
        Wait::Forever
    } else {
        let m = max_elapsed(s, now);
        Wait::For((ACK_TIMEOUT_NANOS - (if m < ACK_TIMEOUT_NANOS { m } else { ACK_TIMEOUT_NANOS as nat })) as u64)
    }
}

/// Position of the pending client with address `a`, if any.
pub open spec fn position(s: Seq<Pending>, a: PeerAddr) -> Option<int> {
    if exists|i: int| 0 <= i < s.len() && s[i].addr == a {
        Some(choose|i: int| 0 <= i < s.len() && s[i].addr == a)
    } else {
        None
    }
}

/// What the listener does on a datagram.
#[derive(Clone, Copy, Debug, PartialEq, Eq, Structural)]
pub enum HandshakeAction {
    /// `SYN` again from a pending client: send it its `SYN-ACK` again, with this port.
    ResendSynAck(u16),
    /// `SYN` from a new client: send it `SYN-ACK` with this port, then open a socket
    /// bound to this port and connected to the client.
    Open(u16),
    /// `ACK` from a pending client: its connection on this port is established.
    Established(u16),
    /// An `ACK` from no pending client, or an unknown message: the listener stops.
    Stop,
}

/// The effect of a datagram from `from` holding `buf`, received at `now`.
pub open spec fn datagram_step(v: HandshakeView, from: PeerAddr, buf: Seq<u8>, now: u64) -> (HandshakeView, HandshakeAction) {
    match control_of(buf) {
        Control::Syn => match position(v.pending, from) {
            Some(i) => {
                let pending = v.pending.update(i, Pending { last_sent: now, ..v.pending[i] });
                (HandshakeView { pending, next_port: v.next_port, wait: wait_after(pending, now) },
                 HandshakeAction::ResendSynAck(v.pending[i].port))
            },
            None => {
                let pending = v.pending.push(Pending { addr: from, port: v.next_port as u16, last_sent: now });
                (HandshakeView { pending, next_port: v.next_port + 1, wait: wait_after(pending, now) },
                 HandshakeAction::Open(v.next_port as u16))
            },
        },
        Control::Ack => match position(v.pending, from) {
            Some(i) => {
                let pending = v.pending.remove(i);
                (HandshakeView { pending, next_port: v.next_port, wait: wait_after(pending, now) },
                 HandshakeAction::Established(v.pending[i].port))
            },
            None => (v, HandshakeAction::Stop),
        },
        Control::Other => (v, HandshakeAction::Stop),
    }
}

/// True when the listener can handle a datagram holding `buf` from `from`: a `SYN`
/// from a new client needs a port, and none follows 65535.
pub open spec fn admitted(v: HandshakeView, from: PeerAddr, buf: Seq<u8>) -> bool {
    !(control_of(buf) is Syn && position(v.pending, from) is None && v.next_port >= u16::MAX)
}

/// A pending client whose `SYN-ACK` is due again at `now`.
pub open spec fn is_stale(p: Pending, now: u64) -> bool {
    elapsed(now, p.last_sent) >= ACK_TIMEOUT_NANOS
}

/// The `SYN-ACK`s sent again on a timeout, in order: address and port.
pub open spec fn resends(s: Seq<Pending>, now: u64) -> Seq<(PeerAddr, u16)>
    decreases s.len(),
{
    if s.len() == 0 {
        Seq::empty()
    } else {
        let rest = resends(s.drop_last(), now);
        if is_stale(s.last(), now) {
            rest.push((s.last().addr, s.last().port))
        } else {
            rest
        }
    }
}

/// Pending clients after a timeout: those whose `SYN-ACK` was sent again are stamped `now`.
pub open spec fn refreshed(s: Seq<Pending>, now: u64) -> Seq<Pending> {
    Seq::new(s.len(), |i: int| if is_stale(s[i], now) { Pending { last_sent: now, ..s[i] } } else { s[i] })
}

/// The listener's handshake state.
pub struct Handshake {
    pending: Vec<Pending>,
    next_port: u16,
    wait: Wait,
}

impl View for Handshake {
    type V = HandshakeView;

    closed spec fn view(&self) -> HandshakeView {
        HandshakeView { pending: self.pending@, next_port: self.next_port as nat, wait: self.wait }
    }
}

impl HandshakeView {
    /// Pending clients have distinct addresses and distinct ports, all below `next_port`.
    pub open spec fn inv(self) -> bool {
        &&& forall|i: int, j: int| 0 <= i < j < self.pending.len()
            ==> #[trigger] self.pending[i].addr != #[trigger] self.pending[j].addr
                && self.pending[i].port != self.pending[j].port
        &&& forall|i: int| 0 <= i < self.pending.len() ==> #[trigger] self.pending[i].port < self.next_port
        &&& self.next_port <= u16::MAX
    }
}

impl Handshake {
    #[verifier::type_invariant]
    closed spec fn wf(self) -> bool {
        self@.inv()
    }

    /// A listener on `port`: the first client gets port `port + 1`. Waits forever at first.
    pub fn new(port: u16) -> (h: Self)
        requires
            port < u16::MAX,
        ensures
            h@.pending == Seq::<Pending>::empty(),
            h@.next_port == port + 1,
            h@.wait == Wait::Forever,
            h@.inv(),
    {
        Handshake { pending: Vec::new(), next_port: port + 1, wait: Wait::Forever }
    }

    /// How long to wait for the next datagram.
    pub fn wait(&self) -> (w: Wait)
        ensures
            w == self@.wait,
    {
        self.wait
    }

    /// Finds the pending client with address `from`.
    fn find(&self, from: PeerAddr) -> (r: Option<usize>)
        ensures
            r matches Some(i) ==> position(self@.pending, from) == Some(i as int),
            r is None ==> position(self@.pending, from) is None,
    {
        proof {
            use_type_invariant(self);
        }
        let mut i: usize = 0;
        while i < self.pending.len()
            invariant
                i <= self.pending@.len(),
                self@.inv(),
                forall|j: int| 0 <= j < i ==> self.pending@[j].addr != from,
            decreases self.pending@.len() - i,
        {
            if self.pending[i].addr == from {
                proof {
                    let k = choose|k: int| 0 <= k < self.pending@.len() && self.pending@[k].addr == from;
                    assert(k == i as int) by {
                        if k < i {
                        } else if k > i {
                            assert(self.pending@[i as int].addr != self.pending@[k].addr);
                        }
                    }
                }
                return Some(i);
            }
            i = i + 1;
        }
        None
    }

    /// True when a datagram holding `buf` from `from` can be handled: a `SYN` from a
    /// new client needs a port, and the last one, 65535, cannot be followed.
    pub fn admits(&self, from: PeerAddr, buf: [u8; 4]) -> (r: bool)
        ensures
            r == admitted(self@, from, buf@),
    {
        let c = classify(buf);
        !(c == Control::Syn && self.find(from).is_none() && self.next_port == u16::MAX)
    }

    /// Handles a datagram holding `buf`, received from `from` at `now`. A `SYN` from a
    /// new client needs a port below the last one.
    pub fn on_datagram(&mut self, from: PeerAddr, buf: [u8; 4], now: u64) -> (r: HandshakeAction)
        requires
            control_of(buf@) is Syn && position(old(self)@.pending, from) is None ==> old(self)@.next_port < u16::MAX,
        ensures
            (final(self)@, r) == datagram_step(old(self)@, from, buf@, now),
            final(self)@.inv(),
    {
        proof {
            use_type_invariant(&*self);
        }
        let c = classify(buf);
        let found = self.find(from);
        let mut pending: Vec<Pending> = Vec::new();
        std::mem::swap(&mut pending, &mut self.pending);
        let mut next_port = self.next_port;
        let action = match (c, found) {
            (Control::Syn, Some(i)) => {
                let p = pending[i];
                pending.set(i, Pending { addr: p.addr, port: p.port, last_sent: now });
                HandshakeAction::ResendSynAck(p.port)
            },
            (Control::Syn, None) => {
                pending.push(Pending { addr: from, port: next_port, last_sent: now });
                next_port = next_port + 1;
                HandshakeAction::Open(self.next_port)
            },
            (Control::Ack, Some(i)) => {
                let p = pending.remove(i);
                HandshakeAction::Established(p.port)
            },
            _ => HandshakeAction::Stop,
        };
        let wait = if action == HandshakeAction::Stop { self.wait } else { wait_after_exec(&pending, now) };
        *self = Handshake { pending, next_port, wait };
        proof {
            use_type_invariant(&*self);
        }
        action
    }

    /// Handles the end of a wait with no datagram, at `now`: returns the clients
    /// whose `SYN-ACK` must be sent again (address and port), in order, and stamps
    /// them `now`. The wait is left as it was.
    pub fn on_timeout(&mut self, now: u64) -> (r: Vec<(PeerAddr, u16)>)
        ensures
            r@ == resends(old(self)@.pending, now),
            final(self)@ == (HandshakeView { pending: refreshed(old(self)@.pending, now), ..old(self)@ }),
            final(self)@.inv(),
    {
        proof {
            use_type_invariant(&*self);
        }
        let mut pending: Vec<Pending> = Vec::new();
        std::mem::swap(&mut pending, &mut self.pending);
        let ghost old_pending = pending@;
        let mut out: Vec<(PeerAddr, u16)> = Vec::new();
        let mut i: usize = 0;
        while i < pending.len()
            invariant
                i <= pending@.len(),
                pending@.len() == old_pending.len(),
                out@ == resends(old_pending.take(i as int), now),
                forall|j: int| 0 <= j < i ==> pending@[j] == refreshed(old_pending, now)[j],
                forall|j: int| i <= j < pending@.len() ==> pending@[j] == old_pending[j],
            decreases pending@.len() - i,
        {
            let p = pending[i];
            proof {
                assert(old_pending.take(i + 1).drop_last() =~= old_pending.take(i as int));
            }
            let stale = if now >= p.last_sent { now - p.last_sent >= ACK_TIMEOUT_NANOS } else { false };
            if stale {
                out.push((p.addr, p.port));
                pending.set(i, Pending { addr: p.addr, port: p.port, last_sent: now });
            }
            i = i + 1;
        }
        proof {
            assert(old_pending.take(old_pending.len() as int) =~= old_pending);
            assert(pending@ =~= refreshed(old_pending, now));
        }
        *self = Handshake { pending, next_port: self.next_port, wait: self.wait };
        proof {
            use_type_invariant(&*self);
        }
        out
    }
}

/// Computes `wait_after`.
fn wait_after_exec(pending: &Vec<Pending>, now: u64) -> (w: Wait)
    ensures
        w == wait_after(pending@, now),
{
    if pending.len() == 0 {
        return Wait::Forever;
    }
    let mut m: u64 = 0;
    let mut i: usize = 0;
    while i < pending.len()
        invariant
            i <= pending@.len(),
            m as nat == max_elapsed(pending@.take(i as int), now),
        decreases pending@.len() - i,
    {
        let last = pending[i].last_sent;
        let e = if now >= last { now - last } else { 0 };
        proof {
            assert(pending@.take(i + 1).drop_last() =~= pending@.take(i as int));
        }
        if e > m {
            m = e;
        }
        i = i + 1;
    }
    proof {
        assert(pending@.take(pending@.len() as int) =~= pending@);
    }
    let capped = if m < ACK_TIMEOUT_NANOS { m } else { ACK_TIMEOUT_NANOS };
    Wait::For(ACK_TIMEOUT_NANOS - capped)
}


/// The bytes `SYN\0`.
pub open spec fn syn_bytes() -> Seq<u8> {
    seq![83u8, 89u8, 78u8, 0u8]
}

/// The bytes `ACK\0`.
pub open spec fn ack_bytes() -> Seq<u8> {
    seq![65u8, 67u8, 75u8, 0u8]
}

/// Every datagram keeps the handshake invariant: pending clients stay distinct by
/// address and by port, and every port handed out is below `next_port`.
pub proof fn lemma_datagram_keeps_inv(v: HandshakeView, from: PeerAddr, buf: Seq<u8>, now: u64)
    requires
        v.inv(),
        control_of(buf) is Syn && position(v.pending, from) is None ==> v.next_port < u16::MAX,
    ensures
        datagram_step(v, from, buf, now).0.inv(),
{
    let w = datagram_step(v, from, buf, now).0;
    match control_of(buf) {
        Control::Syn => match position(v.pending, from) {
            Some(i) => {
                assert forall|a: int, b: int| 0 <= a < b < w.pending.len()
                    implies #[trigger] w.pending[a].addr != #[trigger] w.pending[b].addr
                        && w.pending[a].port != w.pending[b].port by {
                    assert(v.pending[a].addr != v.pending[b].addr);
                }
                assert forall|a: int| 0 <= a < w.pending.len() implies #[trigger] w.pending[a].port < w.next_port by {
                    assert(v.pending[a].port < v.next_port);
                }
            },
            None => {
                assert forall|a: int, b: int| 0 <= a < b < w.pending.len()
                    implies #[trigger] w.pending[a].addr != #[trigger] w.pending[b].addr
                        && w.pending[a].port != w.pending[b].port by {
                    if b == v.pending.len() {
                        assert(v.pending[a].port < v.next_port);
                        assert(v.pending[a].addr != from);
                    } else {
                        assert(v.pending[a].addr != v.pending[b].addr);
                    }
                }
                assert forall|a: int| 0 <= a < w.pending.len() implies #[trigger] w.pending[a].port < w.next_port by {
                    if a < v.pending.len() {
                        assert(v.pending[a].port < v.next_port);
                    }
                }
            },
        },
        Control::Ack => match position(v.pending, from) {
            Some(i) => {
                assert forall|a: int, b: int| 0 <= a < b < w.pending.len()
                    implies #[trigger] w.pending[a].addr != #[trigger] w.pending[b].addr
                        && w.pending[a].port != w.pending[b].port by {
                    let a0 = if a < i { a } else { a + 1 };
                    let b0 = if b < i { b } else { b + 1 };
                    assert(w.pending[a] == v.pending[a0]);
                    assert(w.pending[b] == v.pending[b0]);
                    assert(v.pending[a0].addr != v.pending[b0].addr);
                }
                assert forall|a: int| 0 <= a < w.pending.len() implies #[trigger] w.pending[a].port < w.next_port by {
                    let a0 = if a < i { a } else { a + 1 };
                    assert(w.pending[a] == v.pending[a0]);
                    assert(v.pending[a0].port < v.next_port);
                }
            },
            None => {},
        },
        Control::Other => {},
    }
}

/// A client that repeats its `SYN` before confirming is told the same port again,
/// and no new port is taken for it.
pub proof fn lemma_repeated_syn_same_port(v: HandshakeView, a: PeerAddr, t1: u64, t2: u64)
    requires
        v.inv(),
        position(v.pending, a) is None,
        v.next_port < u16::MAX,
    ensures
        ({
            let (v1, r1) = datagram_step(v, a, syn_bytes(), t1);
            let (v2, r2) = datagram_step(v1, a, syn_bytes(), t2);
            &&& r1 == HandshakeAction::Open(v.next_port as u16)
            &&& r2 == HandshakeAction::ResendSynAck(v.next_port as u16)
            &&& v2.next_port == v1.next_port
            &&& v2.pending.len() == v1.pending.len()
        }),
{
    assert(control_of(syn_bytes()) == Control::Syn);
    let (v1, r1) = datagram_step(v, a, syn_bytes(), t1);
    let n = v.pending.len() as int;
    assert(v1.pending[n].addr == a);
    lemma_datagram_keeps_inv(v, a, syn_bytes(), t1);
    let i = choose|i: int| 0 <= i < v1.pending.len() && v1.pending[i].addr == a;
    assert(i == n) by {
        if i < n {
            assert(v1.pending[i] == v.pending[i]);
        }
    }
}

/// The `ACK` of a client establishes its connection on the port announced in its
/// `SYN-ACK`, and leaves the other pending clients as they were.
pub proof fn lemma_ack_establishes_announced_port(v: HandshakeView, a: PeerAddr, t1: u64, t2: u64)
    requires
        v.inv(),
        position(v.pending, a) is None,
        v.next_port < u16::MAX,
    ensures
        ({
            let (v1, r1) = datagram_step(v, a, syn_bytes(), t1);
            let (v2, r2) = datagram_step(v1, a, ack_bytes(), t2);
            &&& r1 == HandshakeAction::Open(v.next_port as u16)
            &&& r2 == HandshakeAction::Established(v.next_port as u16)
            &&& v2.pending == v.pending
            &&& v2.next_port == v.next_port + 1
        }),
{
    assert(control_of(syn_bytes()) == Control::Syn);
    assert(control_of(ack_bytes()) == Control::Ack);
    let (v1, r1) = datagram_step(v, a, syn_bytes(), t1);
    let n = v.pending.len() as int;
    assert(v1.pending[n].addr == a);
    let i = choose|i: int| 0 <= i < v1.pending.len() && v1.pending[i].addr == a;
    assert(i == n) by {
        if i < n {
            assert(v1.pending[i] == v.pending[i]);
        }
    }
    assert(v1.pending.remove(n) =~= v.pending);
}

/// After a datagram the listener waits at most the timeout while some client is
/// pending, and forever otherwise.
pub proof fn lemma_wait_bounded(s: Seq<Pending>, now: u64)
    ensures
        s.len() == 0 <==> wait_after(s, now) == Wait::Forever,
        wait_after(s, now) matches Wait::For(w) ==> w <= ACK_TIMEOUT_NANOS,
{
}


/// A client reading the digits of a `SYN-ACK` (between `SYN-ACK` and the final zero
/// byte) as an integer gets the announced port.
pub proof fn lemma_syn_ack_port_roundtrip(port: u16)
    ensures
        syn_ack(port as nat).subrange(7, syn_ack(port as nat).len() - 1) == decimal(port as nat),
        parse_i32(decimal(port as nat)) == Some(port as int),
{
    lemma_decimal_value(port as nat);
    let d = decimal(port as nat);
    assert(syn_ack(port as nat).subrange(7, syn_ack(port as nat).len() - 1) =~= d);
    assert(is_digit(d[0]));
}


/// A timeout keeps the handshake invariant and every pending client: only the send
/// times of the `SYN-ACK`s sent again change.
pub proof fn lemma_timeout_keeps_clients(v: HandshakeView, now: u64)
    requires
        v.inv(),
    ensures
        (HandshakeView { pending: refreshed(v.pending, now), ..v }).inv(),
        refreshed(v.pending, now).len() == v.pending.len(),
        forall|i: int| 0 <= i < v.pending.len() ==> #[trigger] refreshed(v.pending, now)[i].addr == v.pending[i].addr
            && refreshed(v.pending, now)[i].port == v.pending[i].port,
{
    let w = refreshed(v.pending, now);
    assert forall|a: int, b: int| 0 <= a < b < w.len()
        implies #[trigger] w[a].addr != #[trigger] w[b].addr && w[a].port != w[b].port by {
        assert(v.pending[a].addr != v.pending[b].addr);
    }
    assert forall|a: int| 0 <= a < w.len() implies #[trigger] w[a].port < v.next_port by {
        assert(v.pending[a].port < v.next_port);
    }
}


/// What happens to the listener: a datagram arrives, or a wait ends without one.
pub enum HandshakeEvent {
    Datagram { from: PeerAddr, buf: [u8; 4], now: u64 },
    Timeout { now: u64 },
}

/// The listener after a sequence of events: its state, the action taken on each
/// datagram with the address it came from, and whether it still runs. It stops on
/// a `Stop` action, and on a datagram it cannot handle (a `SYN` needing a port after
/// 65535); later events are then not handled.
pub struct HandshakeRun {
    pub state: HandshakeView,
    pub actions: Seq<(PeerAddr, HandshakeAction)>,
    pub running: bool,
}

/// The listener after one more event.
pub open spec fn run_step(r: HandshakeRun, event: HandshakeEvent) -> HandshakeRun {
    if !r.running {
        r
    } else {
        match event {
            HandshakeEvent::Timeout { now } => HandshakeRun {
                state: HandshakeView { pending: refreshed(r.state.pending, now), ..r.state },
                ..r
            },
            HandshakeEvent::Datagram { from, buf, now } => {
                if admitted(r.state, from, buf@) {
                    let (s, a) = datagram_step(r.state, from, buf@, now);
                    HandshakeRun { state: s, actions: r.actions.push((from, a)), running: !(a is Stop) }
                } else {
                    HandshakeRun { running: false, ..r }
                }
            },
        }
    }
}

/// The listener started in `v0` after handling `events` in order.
pub open spec fn run(v0: HandshakeView, events: Seq<HandshakeEvent>) -> HandshakeRun
    decreases events.len(),
{
    if events.len() == 0 {
        HandshakeRun { state: v0, actions: Seq::empty(), running: true }
    } else {
        run_step(run(v0, events.drop_last()), events.last())
    }
}

/// The port an action names (0 for `Stop`).
pub open spec fn port_of(a: HandshakeAction) -> u16 {
    match a {
        HandshakeAction::ResendSynAck(p) => p,
        HandshakeAction::Open(p) => p,
        HandshakeAction::Established(p) => p,
        HandshakeAction::Stop => 0,
    }
}

/// Number of `Open` actions in `acts`: ports handed out.
pub open spec fn open_count(acts: Seq<(PeerAddr, HandshakeAction)>) -> nat
    decreases acts.len(),
{
    if acts.len() == 0 {
        0
    } else {
        open_count(acts.drop_last()) + if acts.last().1 is Open { 1nat } else { 0nat }
    }
}

/// Ports are handed out one per new client, in order: the `k`-th `Open` of a run
/// (counting from 0) announces `next_port + k` of the starting state, so the ports
/// handed out strictly increase and never repeat, and the run ends with
/// `next_port` advanced by the number of ports handed out.
pub proof fn lemma_ports_handed_out_in_order(v0: HandshakeView, events: Seq<HandshakeEvent>)
    requires
        v0.inv(),
    ensures
        run(v0, events).state.inv(),
        run(v0, events).state.next_port == v0.next_port + open_count(run(v0, events).actions),
        forall|j: int| 0 <= j < run(v0, events).actions.len() && (#[trigger] run(v0, events).actions[j]).1 is Open
            ==> port_of(run(v0, events).actions[j].1) == v0.next_port + open_count(run(v0, events).actions.take(j)),
        forall|i: int, j: int| 0 <= i < j < run(v0, events).actions.len()
            && (#[trigger] run(v0, events).actions[i]).1 is Open && (#[trigger] run(v0, events).actions[j]).1 is Open
            ==> port_of(run(v0, events).actions[i].1) < port_of(run(v0, events).actions[j].1),
        forall|i: int| 0 <= i < run(v0, events).actions.len() && (#[trigger] run(v0, events).actions[i]).1 is Open
            ==> port_of(run(v0, events).actions[i].1) < run(v0, events).state.next_port,
    decreases events.len(),
{
    if events.len() > 0 {
        let pre = events.drop_last();
        lemma_ports_handed_out_in_order(v0, pre);
        let r = run(v0, pre);
        if r.running {
            match events.last() {
                HandshakeEvent::Timeout { now } => {
                    lemma_timeout_keeps_clients(r.state, now);
                },
                HandshakeEvent::Datagram { from, buf, now } => {
                    if admitted(r.state, from, buf@) {
                        lemma_datagram_keeps_inv(r.state, from, buf@, now);
                        let (st, a) = datagram_step(r.state, from, buf@, now);
                        let acts = r.actions.push((from, a));
                        assert(acts.drop_last() =~= r.actions);
                        assert(run(v0, events).actions == acts);
                        assert(a is Open ==> port_of(a) == r.state.next_port && st.next_port == r.state.next_port + 1);
                        assert(!(a is Open) ==> st.next_port == r.state.next_port);
                        assert forall|j: int| 0 <= j < acts.len() && (#[trigger] acts[j]).1 is Open
                            implies port_of(acts[j].1) == v0.next_port + open_count(acts.take(j)) by {
                            if j < r.actions.len() {
                                assert(acts.take(j) =~= r.actions.take(j));
                                assert(acts[j] == r.actions[j]);
                            } else {
                                assert(acts.take(j) =~= r.actions);
                            }
                        }
                        assert forall|i: int, j: int| 0 <= i < j < acts.len()
                            && (#[trigger] acts[i]).1 is Open && (#[trigger] acts[j]).1 is Open
                            implies port_of(acts[i].1) < port_of(acts[j].1) by {
                            assert(acts[i] == r.actions[i]);
                            if j < r.actions.len() {
                                assert(acts[j] == r.actions[j]);
                            }
                        }
                        assert forall|i: int| 0 <= i < acts.len() && (#[trigger] acts[i]).1 is Open
                            implies port_of(acts[i].1) < st.next_port by {
                            if i < r.actions.len() {
                                assert(acts[i] == r.actions[i]);
                            }
                        }
                    }
                },
            }
        }
    }
}


/// True when some action before position `j` of `acts` opened port `p` for `a`.
pub open spec fn opened_before(acts: Seq<(PeerAddr, HandshakeAction)>, a: PeerAddr, p: u16, j: int) -> bool {
    exists|i: int| 0 <= i < j && #[trigger] acts[i] == (a, HandshakeAction::Open(p))
}

/// Every `Established(p)` for a client follows an `Open(p)` for the same client.
pub open spec fn established_after_open(acts: Seq<(PeerAddr, HandshakeAction)>) -> bool {
    forall|j: int| 0 <= j < acts.len() && (#[trigger] acts[j]).1 is Established
        ==> opened_before(acts, acts[j].0, port_of(acts[j].1), j)
}

/// No port is established twice.
pub open spec fn established_once(acts: Seq<(PeerAddr, HandshakeAction)>) -> bool {
    forall|i: int, j: int| 0 <= i < j < acts.len()
        && (#[trigger] acts[i]).1 is Established && (#[trigger] acts[j]).1 is Established
        ==> port_of(acts[i].1) != port_of(acts[j].1)
}

/// What a run keeps of its history: its state keeps the invariant, every port
/// opened is below `next_port`, every pending client was opened earlier, no
/// established port is still pending, and the two laws above hold so far.
spec fn history_ok(r: HandshakeRun) -> bool {
    &&& r.state.inv()
    &&& forall|i: int| 0 <= i < r.actions.len() && (#[trigger] r.actions[i]).1 is Open
        ==> port_of(r.actions[i].1) < r.state.next_port
    &&& forall|k: int| 0 <= k < r.state.pending.len()
        ==> opened_before(r.actions, (#[trigger] r.state.pending[k]).addr, r.state.pending[k].port, r.actions.len() as int)
    &&& forall|j: int, k: int| 0 <= j < r.actions.len() && 0 <= k < r.state.pending.len()
        && (#[trigger] r.actions[j]).1 is Established
        ==> (#[trigger] r.state.pending[k]).port != port_of(r.actions[j].1)
    &&& established_after_open(r.actions)
    &&& established_once(r.actions)
}

proof fn lemma_opened_before_push(acts: Seq<(PeerAddr, HandshakeAction)>, x: (PeerAddr, HandshakeAction), a: PeerAddr, p: u16, j: int)
    requires
        0 <= j <= acts.len(),
        opened_before(acts, a, p, j),
    ensures
        opened_before(acts.push(x), a, p, j),
{
    let i = choose|i: int| 0 <= i < j && #[trigger] acts[i] == (a, HandshakeAction::Open(p));
    assert(acts.push(x)[i] == acts[i]);
}

/// The laws carried over the old actions when one action is appended, given that
/// the new one is not `Established`.
proof fn lemma_laws_push_other(acts: Seq<(PeerAddr, HandshakeAction)>, x: (PeerAddr, HandshakeAction))
    requires
        established_after_open(acts),
        established_once(acts),
        !(x.1 is Established),
    ensures
        established_after_open(acts.push(x)),
        established_once(acts.push(x)),
{
    let b = acts.push(x);
    assert forall|j: int| 0 <= j < b.len() && (#[trigger] b[j]).1 is Established
        implies opened_before(b, b[j].0, port_of(b[j].1), j) by {
        assert(b[j] == acts[j]);
        lemma_opened_before_push(acts, x, acts[j].0, port_of(acts[j].1), j);
    }
    assert forall|i: int, j: int| 0 <= i < j < b.len() && (#[trigger] b[i]).1 is Established && (#[trigger] b[j]).1 is Established
        implies port_of(b[i].1) != port_of(b[j].1) by {
        assert(b[i] == acts[i]);
        assert(b[j] == acts[j]);
    }
}

proof fn lemma_history_timeout(r: HandshakeRun, now: u64)
    requires
        history_ok(r),
    ensures
        history_ok(HandshakeRun { state: HandshakeView { pending: refreshed(r.state.pending, now), ..r.state }, ..r }),
{
    lemma_timeout_keeps_clients(r.state, now);
    let w = HandshakeRun { state: HandshakeView { pending: refreshed(r.state.pending, now), ..r.state }, ..r };
    assert forall|k: int| 0 <= k < w.state.pending.len()
        implies opened_before(w.actions, (#[trigger] w.state.pending[k]).addr, w.state.pending[k].port, w.actions.len() as int) by {
        assert(opened_before(r.actions, r.state.pending[k].addr, r.state.pending[k].port, r.actions.len() as int));
    }
    assert forall|j: int, k: int| 0 <= j < w.actions.len() && 0 <= k < w.state.pending.len()
        && (#[trigger] w.actions[j]).1 is Established
        implies (#[trigger] w.state.pending[k]).port != port_of(w.actions[j].1) by {
        assert(r.state.pending[k].port != port_of(r.actions[j].1));
    }
}

proof fn lemma_history_syn_again(r: HandshakeRun, from: PeerAddr, buf: Seq<u8>, now: u64, i: int)
    requires
        history_ok(r),
        control_of(buf) is Syn,
        position(r.state.pending, from) == Some(i),
    ensures
        history_ok(HandshakeRun {
            state: datagram_step(r.state, from, buf, now).0,
            actions: r.actions.push((from, datagram_step(r.state, from, buf, now).1)),
            running: true,
        }),
{
    lemma_datagram_keeps_inv(r.state, from, buf, now);
    let (st, a) = datagram_step(r.state, from, buf, now);
    let acts = r.actions.push((from, a));
    let n = r.actions.len() as int;
    lemma_laws_push_other(r.actions, (from, a));
    assert forall|j: int| 0 <= j < acts.len() && (#[trigger] acts[j]).1 is Open
        implies port_of(acts[j].1) < st.next_port by {
        assert(acts[j] == r.actions[j]);
    }
    assert forall|k: int| 0 <= k < st.pending.len()
        implies opened_before(acts, (#[trigger] st.pending[k]).addr, st.pending[k].port, acts.len() as int) by {
        assert(opened_before(r.actions, r.state.pending[k].addr, r.state.pending[k].port, n));
        lemma_opened_before_push(r.actions, (from, a), r.state.pending[k].addr, r.state.pending[k].port, n);
    }
    assert forall|j: int, k: int| 0 <= j < acts.len() && 0 <= k < st.pending.len()
        && (#[trigger] acts[j]).1 is Established
        implies (#[trigger] st.pending[k]).port != port_of(acts[j].1) by {
        assert(acts[j] == r.actions[j]);
        assert(r.state.pending[k].port != port_of(r.actions[j].1));
    }
}

proof fn lemma_history_syn_new(r: HandshakeRun, from: PeerAddr, buf: Seq<u8>, now: u64)
    requires
        history_ok(r),
        control_of(buf) is Syn,
        position(r.state.pending, from) is None,
        r.state.next_port < u16::MAX,
    ensures
        history_ok(HandshakeRun {
            state: datagram_step(r.state, from, buf, now).0,
            actions: r.actions.push((from, datagram_step(r.state, from, buf, now).1)),
            running: true,
        }),
{
    lemma_datagram_keeps_inv(r.state, from, buf, now);
    let (st, a) = datagram_step(r.state, from, buf, now);
    let acts = r.actions.push((from, a));
    let n = r.actions.len() as int;
    lemma_laws_push_other(r.actions, (from, a));
    assert(a == HandshakeAction::Open(r.state.next_port as u16));
    assert forall|j: int| 0 <= j < acts.len() && (#[trigger] acts[j]).1 is Open
        implies port_of(acts[j].1) < st.next_port by {
        if j < n {
            assert(acts[j] == r.actions[j]);
        }
    }
    assert forall|k: int| 0 <= k < st.pending.len()
        implies opened_before(acts, (#[trigger] st.pending[k]).addr, st.pending[k].port, acts.len() as int) by {
        if k < r.state.pending.len() {
            assert(st.pending[k] == r.state.pending[k]);
            assert(opened_before(r.actions, r.state.pending[k].addr, r.state.pending[k].port, n));
            lemma_opened_before_push(r.actions, (from, a), r.state.pending[k].addr, r.state.pending[k].port, n);
        } else {
            assert(acts[n] == (from, HandshakeAction::Open(r.state.next_port as u16)));
        }
    }
    assert forall|j: int, k: int| 0 <= j < acts.len() && 0 <= k < st.pending.len()
        && (#[trigger] acts[j]).1 is Established
        implies (#[trigger] st.pending[k]).port != port_of(acts[j].1) by {
        assert(acts[j] == r.actions[j]);
        if k < r.state.pending.len() {
            assert(st.pending[k] == r.state.pending[k]);
            assert(r.state.pending[k].port != port_of(r.actions[j].1));
        } else {
            assert(opened_before(r.actions, r.actions[j].0, port_of(r.actions[j].1), j));
            let i0 = choose|i: int| 0 <= i < j && #[trigger] r.actions[i] == (r.actions[j].0, HandshakeAction::Open(port_of(r.actions[j].1)));
            assert(r.actions[i0].1 is Open);
            assert(port_of(r.actions[i0].1) < r.state.next_port);
        }
    }
}

proof fn lemma_history_ack(r: HandshakeRun, from: PeerAddr, buf: Seq<u8>, now: u64, i: int)
    requires
        history_ok(r),
        control_of(buf) is Ack,
        position(r.state.pending, from) == Some(i),
    ensures
        history_ok(HandshakeRun {
            state: datagram_step(r.state, from, buf, now).0,
            actions: r.actions.push((from, datagram_step(r.state, from, buf, now).1)),
            running: true,
        }),
{
    lemma_datagram_keeps_inv(r.state, from, buf, now);
    let (st, a) = datagram_step(r.state, from, buf, now);
    let acts = r.actions.push((from, a));
    let n = r.actions.len() as int;
    let p = r.state.pending[i].port;
    assert(a == HandshakeAction::Established(p));
    assert(r.state.pending[i].addr == from);
    assert(opened_before(r.actions, r.state.pending[i].addr, p, n));
    assert forall|j: int| 0 <= j < acts.len() && (#[trigger] acts[j]).1 is Open
        implies port_of(acts[j].1) < st.next_port by {
        assert(acts[j] == r.actions[j]);
    }
    assert forall|k: int| 0 <= k < st.pending.len()
        implies opened_before(acts, (#[trigger] st.pending[k]).addr, st.pending[k].port, acts.len() as int) by {
        let k0 = if k < i { k } else { k + 1 };
        assert(st.pending[k] == r.state.pending[k0]);
        assert(opened_before(r.actions, r.state.pending[k0].addr, r.state.pending[k0].port, n));
        lemma_opened_before_push(r.actions, (from, a), r.state.pending[k0].addr, r.state.pending[k0].port, n);
    }
    assert forall|j: int, k: int| 0 <= j < acts.len() && 0 <= k < st.pending.len()
        && (#[trigger] acts[j]).1 is Established
        implies (#[trigger] st.pending[k]).port != port_of(acts[j].1) by {
        let k0 = if k < i { k } else { k + 1 };
        assert(st.pending[k] == r.state.pending[k0]);
        if j < n {
            assert(acts[j] == r.actions[j]);
            assert(r.state.pending[k0].port != port_of(r.actions[j].1));
        } else {
            assert(r.state.pending[k0].port != r.state.pending[i].port);
        }
    }
    assert forall|j: int| 0 <= j < acts.len() && (#[trigger] acts[j]).1 is Established
        implies opened_before(acts, acts[j].0, port_of(acts[j].1), j) by {
        if j < n {
            assert(acts[j] == r.actions[j]);
            lemma_opened_before_push(r.actions, (from, a), r.actions[j].0, port_of(r.actions[j].1), j);
        } else {
            lemma_opened_before_push(r.actions, (from, a), from, p, n);
        }
    }
    assert forall|i1: int, j: int| 0 <= i1 < j < acts.len()
        && (#[trigger] acts[i1]).1 is Established && (#[trigger] acts[j]).1 is Established
        implies port_of(acts[i1].1) != port_of(acts[j].1) by {
        assert(acts[i1] == r.actions[i1]);
        if j < n {
            assert(acts[j] == r.actions[j]);
        } else {
            assert(r.state.pending[i].port != port_of(r.actions[i1].1));
        }
    }
}

proof fn lemma_history_step(r: HandshakeRun, event: HandshakeEvent)
    requires
        history_ok(r),
    ensures
        history_ok(run_step(r, event)),
{
    if r.running {
        match event {
            HandshakeEvent::Timeout { now } => lemma_history_timeout(r, now),
            HandshakeEvent::Datagram { from, buf, now } => {
                if admitted(r.state, from, buf@) {
                    let (st, a) = datagram_step(r.state, from, buf@, now);
                    match control_of(buf@) {
                        Control::Syn => match position(r.state.pending, from) {
                            Some(i) => lemma_history_syn_again(r, from, buf@, now, i),
                            None => lemma_history_syn_new(r, from, buf@, now),
                        },
                        Control::Ack => match position(r.state.pending, from) {
                            Some(i) => lemma_history_ack(r, from, buf@, now, i),
                            None => lemma_history_stop(r, from),
                        },
                        Control::Other => lemma_history_stop(r, from),
                    }
                }
            },
        }
    }
}

proof fn lemma_history_stop(r: HandshakeRun, from: PeerAddr)
    requires
        history_ok(r),
    ensures
        history_ok(HandshakeRun { state: r.state, actions: r.actions.push((from, HandshakeAction::Stop)), running: false }),
{
    let x = (from, HandshakeAction::Stop);
    let acts = r.actions.push(x);
    let n = r.actions.len() as int;
    lemma_laws_push_other(r.actions, x);
    assert forall|j: int| 0 <= j < acts.len() && (#[trigger] acts[j]).1 is Open
        implies port_of(acts[j].1) < r.state.next_port by {
        assert(acts[j] == r.actions[j]);
    }
    assert forall|k: int| 0 <= k < r.state.pending.len()
        implies opened_before(acts, (#[trigger] r.state.pending[k]).addr, r.state.pending[k].port, acts.len() as int) by {
        assert(opened_before(r.actions, r.state.pending[k].addr, r.state.pending[k].port, n));
        lemma_opened_before_push(r.actions, x, r.state.pending[k].addr, r.state.pending[k].port, n);
    }
    assert forall|j: int, k: int| 0 <= j < acts.len() && 0 <= k < r.state.pending.len()
        && (#[trigger] acts[j]).1 is Established
        implies (#[trigger] r.state.pending[k]).port != port_of(acts[j].1) by {
        assert(acts[j] == r.actions[j]);
    }
}

proof fn lemma_run_history(v0: HandshakeView, events: Seq<HandshakeEvent>)
    requires
        v0.inv(),
        v0.pending.len() == 0,
    ensures
        history_ok(run(v0, events)),
    decreases events.len(),
{
    if events.len() > 0 {
        lemma_run_history(v0, events.drop_last());
        lemma_history_step(run(v0, events.drop_last()), events.last());
    }
}

/// No connection is handed over without a full handshake: on a listener that starts
/// with no pending client, each `Established(p)` for a client `a` comes from an
/// `ACK` of `a` after an earlier `Open(p)` for `a`, which answered a `SYN` of `a`
/// with a `SYN-ACK` announcing `p`; and no port is established twice.
pub proof fn lemma_no_connection_without_handshake(v0: HandshakeView, events: Seq<HandshakeEvent>)
    requires
        v0.inv(),
        v0.pending.len() == 0,
    ensures
        established_after_open(run(v0, events).actions),
        established_once(run(v0, events).actions),
{
    lemma_run_history(v0, events);
}


/// `max_elapsed` is the age of the oldest pending `SYN-ACK`: no pending client's
/// `SYN-ACK` is older, and (when some client is pending) one is exactly that old.
pub proof fn lemma_max_elapsed_is_oldest(s: Seq<Pending>, now: u64)
    ensures
        forall|i: int| 0 <= i < s.len() ==> elapsed(now, (#[trigger] s[i]).last_sent) <= max_elapsed(s, now),
        s.len() > 0 ==> exists|i: int| 0 <= i < s.len() && max_elapsed(s, now) == elapsed(now, (#[trigger] s[i]).last_sent),
        s.len() == 0 ==> max_elapsed(s, now) == 0,
    decreases s.len(),
{
    if s.len() > 0 {
        let t = s.drop_last();
        lemma_max_elapsed_is_oldest(t, now);
        assert forall|i: int| 0 <= i < s.len() implies elapsed(now, (#[trigger] s[i]).last_sent) <= max_elapsed(s, now) by {
            if i < t.len() {
                assert(s[i] == t[i]);
            }
        }
        let e = elapsed(now, s.last().last_sent);
        if e > max_elapsed(t, now) || t.len() == 0 {
            assert(max_elapsed(s, now) == elapsed(now, s[s.len() - 1].last_sent));
        } else {
            let i = choose|i: int| 0 <= i < t.len() && max_elapsed(t, now) == elapsed(now, (#[trigger] t[i]).last_sent);
            assert(s[i] == t[i]);
        }
    }
}

/// After a datagram, while clients are pending, the listener waits until the oldest
/// pending `SYN-ACK` is `ACK_TIMEOUT_NANOS` old (not at all when it already is):
/// the wait is the timeout minus the age of a pending `SYN-ACK` that no other is
/// older than.
pub proof fn lemma_wait_for_oldest(s: Seq<Pending>, now: u64)
    requires
        s.len() > 0,
    ensures
        exists|i: int| #![trigger s[i]] 0 <= i < s.len()
            && (forall|j: int| 0 <= j < s.len() ==> elapsed(now, (#[trigger] s[j]).last_sent) <= elapsed(now, s[i].last_sent))
            && wait_after(s, now) == Wait::For((ACK_TIMEOUT_NANOS - (if elapsed(now, s[i].last_sent) < ACK_TIMEOUT_NANOS {
                elapsed(now, s[i].last_sent)
            } else {
                ACK_TIMEOUT_NANOS as nat
            })) as u64),
{
    lemma_max_elapsed_is_oldest(s, now);
    let i = choose|i: int| 0 <= i < s.len() && max_elapsed(s, now) == elapsed(now, (#[trigger] s[i]).last_sent);
    assert(s[i] == s[i]);
}

/// A timeout stamps every `SYN-ACK` it sends again with the time of that timeout and
/// leaves the others untouched, so right after it no `SYN-ACK` is overdue: a second
/// timeout at the same time sends nothing.
pub proof fn lemma_timeout_restamps(s: Seq<Pending>, now: u64)
    ensures
        forall|i: int| 0 <= i < s.len() && is_stale(s[i], now) ==> (#[trigger] refreshed(s, now)[i]).last_sent == now
            && refreshed(s, now)[i].addr == s[i].addr && refreshed(s, now)[i].port == s[i].port,
        forall|i: int| 0 <= i < s.len() && !is_stale(s[i], now) ==> #[trigger] refreshed(s, now)[i] == s[i],
        forall|i: int| 0 <= i < s.len() ==> !is_stale(#[trigger] refreshed(s, now)[i], now),
        resends(refreshed(s, now), now) == Seq::<(PeerAddr, u16)>::empty(),
{
    lemma_no_resends(refreshed(s, now), now);
}

proof fn lemma_no_resends(s: Seq<Pending>, now: u64)
    requires
        forall|i: int| 0 <= i < s.len() ==> !is_stale(#[trigger] s[i], now),
    ensures
        resends(s, now) == Seq::<(PeerAddr, u16)>::empty(),
    decreases s.len(),
{
    if s.len() > 0 {
        let t = s.drop_last();
        assert forall|i: int| 0 <= i < t.len() implies !is_stale(#[trigger] t[i], now) by {
            assert(t[i] == s[i]);
        }
        lemma_no_resends(t, now);
        assert(!is_stale(s[s.len() - 1], now));
    }
}

}

//! Metrics recorded from the events that a transfer emits (`seq` of each frame sent,
//! `rseq` of each acknowledgement, `timeout`, `anticipation`, `srtt`).

use vstd::prelude::*;
use std::sync::{Arc, Mutex};
use crate::clock::{same_text, stamped, utc_now, Timestamp};

verus! {

#[verifier::external_type_specification]
#[verifier::external_body]
#[verifier::reject_recursive_types(T)]
pub struct ExMutex<T: ?Sized>(std::sync::Mutex<T>);

/// `std::sync::Mutex::new`. A mutex's content is not visible to the verifier, so
/// nothing is stated of the result.
#[verifier::external_body]
pub(crate) fn new_mutex<T>(value: T) -> Mutex<T> {
    Mutex::new(value)
}

/// `Arc::clone`: the new handle points to the same value.
#[verifier::external_body]
pub(crate) fn share<T>(a: &Arc<T>) -> (r: Arc<T>)
    ensures
        r == *a,
{
    Arc::clone(a)
}

/// A metric fed with the integer and string fields of events.
pub trait Metric: Sized {
    /// Records an integer field of an event. Unless overridden, it ignores the field.
    fn record_int(&mut self, _field: &str, _value: i128)
        default_ensures
            *final(self) == *old(self),
    {
    }

    /// Records a string field of an event. Unless overridden, it ignores the field.
    fn record_str(&mut self, _field: &str, _value: &str)
        default_ensures
            *final(self) == *old(self),
    {
    }
}

/// A metric shared between the layer that feeds it and its readers.
#[verifier::reject_recursive_types(R)]
pub struct MetricLayer<R>(Arc<Mutex<R>>);

impl<R> MetricLayer<R> {
    /// The shared handle this layer holds.
    pub closed spec fn handle(&self) -> Arc<Mutex<R>> {
        self.0
    }
}

impl<R: Metric + Default> MetricLayer<R> {
    /// A layer over a fresh `R::default()`, behind a new `Arc<Mutex<_>>`. What the
    /// mutex holds is not visible to the verifier (see `new_mutex`), so no clause
    /// states it.
    pub fn new() -> Self {
        MetricLayer(Arc::new(new_mutex(R::default())))
    }

    /// A handle to the metric this layer feeds.
    pub fn metric(&self) -> (r: Arc<Mutex<R>>)
        ensures
            r == self.handle(),
    {
        share(&self.0)
    }
}

/// Sequence numbers of frames sent, acknowledgements received, anticipated
/// retransmissions and timeouts, each with the time it was recorded (`None` where
/// the clock could not be read).
pub struct TraceRecorder {
    pub timestamps_ack: Vec<Option<Timestamp>>,
    pub acks: Vec<u32>,
    pub timestamps_sent: Vec<Option<Timestamp>>,
    pub sent: Vec<u32>,
    pub timestamps_anticip: Vec<Option<Timestamp>>,
    pub anticip: Vec<u32>,
    pub timestamps_to: Vec<Option<Timestamp>>,
    pub to: Vec<u32>,
}

impl Default for TraceRecorder {
    fn default() -> (r: Self)
        ensures
            r.timestamps_ack@.len() == 0 && r.acks@.len() == 0,
            r.timestamps_sent@.len() == 0 && r.sent@.len() == 0,
            r.timestamps_anticip@.len() == 0 && r.anticip@.len() == 0,
            r.timestamps_to@.len() == 0 && r.to@.len() == 0,
    {
        TraceRecorder {
            timestamps_ack: Vec::with_capacity(1 << 15),
            acks: Vec::with_capacity(1 << 15),
            timestamps_sent: Vec::with_capacity(1 << 15),
            sent: Vec::with_capacity(1 << 15),
            timestamps_anticip: Vec::with_capacity(1 << 12),
            anticip: Vec::with_capacity(1 << 12),
            timestamps_to: Vec::with_capacity(1 << 12),
            to: Vec::with_capacity(1 << 12),
        }
    }
}

impl Metric for TraceRecorder {
    /// `seq`, `rseq`, `anticipation` and `timeout` each append the value, cut to 32
    /// bits, and the time to their own pair of lists; other fields are ignored. The
    /// time is `None` when the clock cannot be read.
    fn record_int(&mut self, field: &str, value: i128)
        ensures
            field@ == "seq"@ ==> {
                &&& final(self).sent@ == old(self).sent@.push(#[verifier::truncate] (value as u32))
                &&& stamped(old(self).timestamps_sent@, final(self).timestamps_sent@)
                &&& final(self).acks@ == old(self).acks@ && final(self).timestamps_ack@ == old(self).timestamps_ack@
                &&& final(self).anticip@ == old(self).anticip@ && final(self).timestamps_anticip@ == old(self).timestamps_anticip@
                &&& final(self).to@ == old(self).to@ && final(self).timestamps_to@ == old(self).timestamps_to@
            },
            field@ == "rseq"@ ==> {
                &&& final(self).acks@ == old(self).acks@.push(#[verifier::truncate] (value as u32))
                &&& stamped(old(self).timestamps_ack@, final(self).timestamps_ack@)
                &&& final(self).sent@ == old(self).sent@ && final(self).timestamps_sent@ == old(self).timestamps_sent@
                &&& final(self).anticip@ == old(self).anticip@ && final(self).timestamps_anticip@ == old(self).timestamps_anticip@
                &&& final(self).to@ == old(self).to@ && final(self).timestamps_to@ == old(self).timestamps_to@
            },
            field@ == "anticipation"@ ==> {
                &&& final(self).anticip@ == old(self).anticip@.push(#[verifier::truncate] (value as u32))
                &&& stamped(old(self).timestamps_anticip@, final(self).timestamps_anticip@)
                &&& final(self).sent@ == old(self).sent@ && final(self).timestamps_sent@ == old(self).timestamps_sent@
                &&& final(self).acks@ == old(self).acks@ && final(self).timestamps_ack@ == old(self).timestamps_ack@
                &&& final(self).to@ == old(self).to@ && final(self).timestamps_to@ == old(self).timestamps_to@
            },
            field@ == "timeout"@ ==> {
                &&& final(self).to@ == old(self).to@.push(#[verifier::truncate] (value as u32))
                &&& stamped(old(self).timestamps_to@, final(self).timestamps_to@)
                &&& final(self).sent@ == old(self).sent@ && final(self).timestamps_sent@ == old(self).timestamps_sent@
                &&& final(self).acks@ == old(self).acks@ && final(self).timestamps_ack@ == old(self).timestamps_ack@
                &&& final(self).anticip@ == old(self).anticip@ && final(self).timestamps_anticip@ == old(self).timestamps_anticip@
            },
            field@ != "seq"@ && field@ != "rseq"@ && field@ != "anticipation"@ && field@ != "timeout"@
                ==> *final(self) == *old(self),
    {
        proof {
            reveal_strlit("seq");
            reveal_strlit("rseq");
            reveal_strlit("anticipation");
            reveal_strlit("timeout");
            assert("seq"@.len() == 3);
            assert("rseq"@.len() == 4);
            assert("anticipation"@.len() == 12);
            assert("timeout"@.len() == 7);
        }
        if same_text(field, "seq") {
            self.timestamps_sent.push(utc_now());
            self.sent.push(#[verifier::truncate] (value as u32));
            assert(self.timestamps_sent@.take(old(self).timestamps_sent@.len() as int) =~= old(self).timestamps_sent@);
        } else if same_text(field, "rseq") {
            self.timestamps_ack.push(utc_now());
            self.acks.push(#[verifier::truncate] (value as u32));
            assert(self.timestamps_ack@.take(old(self).timestamps_ack@.len() as int) =~= old(self).timestamps_ack@);
        } else if same_text(field, "anticipation") {
            self.timestamps_anticip.push(utc_now());
            self.anticip.push(#[verifier::truncate] (value as u32));
            assert(self.timestamps_anticip@.take(old(self).timestamps_anticip@.len() as int) =~= old(self).timestamps_anticip@);
        } else if same_text(field, "timeout") {
            self.timestamps_to.push(utc_now());
            self.to.push(#[verifier::truncate] (value as u32));
            assert(self.timestamps_to@.take(old(self).timestamps_to@.len() as int) =~= old(self).timestamps_to@);
        }
    }
}

/// Smoothed round-trip time estimates, with the time each was recorded (`None`
/// where the clock could not be read).
pub struct SrttMetric {
    pub timestamps: Vec<Option<Timestamp>>,
    pub values: Vec<u64>,
}

impl Default for SrttMetric {
    fn default() -> (r: Self)
        ensures
            r.timestamps@.len() == 0 && r.values@.len() == 0,
    {
        SrttMetric { timestamps: Vec::with_capacity(4096), values: Vec::with_capacity(4096) }
    }
}

impl Metric for SrttMetric {
    /// `srtt` appends the value, cut to 64 bits, and the time (`None` when the clock
    /// cannot be read); other fields are ignored.
    fn record_int(&mut self, field: &str, value: i128)
        ensures
            field@ == "srtt"@ ==> final(self).values@ == old(self).values@.push(#[verifier::truncate] (value as u64))
                && stamped(old(self).timestamps@, final(self).timestamps@),
            field@ != "srtt"@ ==> *final(self) == *old(self),
    {
        if same_text(field, "srtt") {
            self.timestamps.push(utc_now());
            self.values.push(#[verifier::truncate] (value as u64));
            assert(self.timestamps@.take(old(self).timestamps@.len() as int) =~= old(self).timestamps@);
        }
    }
}


/// The largest of the values in `s`, or 0 when there is none larger.
pub open spec fn running_max(s: Seq<u32>) -> u32
    decreases s.len(),
{
    if s.len() == 0 {
        0
    } else {
        let m = running_max(s.drop_last());
        if s.last() > m { s.last() } else { m }
    }
}

/// Positions, in order, of the values greater than every value before them and
/// than 0: where the running maximum rises.
pub open spec fn rises(s: Seq<u32>) -> Seq<usize>
    decreases s.len(),
{
    if s.len() == 0 {
        Seq::empty()
    } else {
        let r = rises(s.drop_last());
        if s.last() > running_max(s.drop_last()) {
            r.push((s.len() - 1) as usize)
        } else {
            r
        }
    }
}

/// Positions of the points of the envelope of a trace of sequence numbers: the
/// values that exceed every earlier one (and 0).
pub fn envelope(values: &[u32]) -> (r: Vec<usize>)
    ensures
        r@ == rises(values@),
{
    let mut r: Vec<usize> = Vec::new();
    let mut max: u32 = 0;
    let mut i: usize = 0;
    while i < values.len()
        invariant
            i <= values@.len(),
            max == running_max(values@.take(i as int)),
            r@ == rises(values@.take(i as int)),
        decreases values@.len() - i,
    {
        proof {
            assert(values@.take(i + 1).drop_last() =~= values@.take(i as int));
        }
        if values[i] > max {
            max = values[i];
            r.push(i);
        }
        i = i + 1;
    }
    proof {
        assert(values@.take(values@.len() as int) =~= values@);
    }
    r
}


/// True when `s[j]` is greater than 0 and than every value before it.
pub open spec fn is_new_high(s: Seq<u32>, j: int) -> bool {
    &&& 0 <= j < s.len()
    &&& s[j] > 0
    &&& forall|k: int| 0 <= k < j ==> s[k] < s[j]
}

proof fn lemma_running_max(s: Seq<u32>)
    ensures
        forall|k: int| 0 <= k < s.len() ==> s[k] <= running_max(s),
        running_max(s) == 0 || exists|k: int| 0 <= k < s.len() && s[k] == running_max(s),
    decreases s.len(),
{
    if s.len() > 0 {
        let t = s.drop_last();
        lemma_running_max(t);
        assert forall|k: int| 0 <= k < s.len() implies s[k] <= running_max(s) by {
            if k < t.len() {
                assert(s[k] == t[k]);
            }
        }
        if running_max(t) != 0 && s.last() <= running_max(t) {
            let k = choose|k: int| 0 <= k < t.len() && t[k] == running_max(t);
            assert(s[k] == t[k]);
        }
    }
}

/// The envelope lists exactly the new highs of a trace, in increasing order: each
/// listed position holds a value above 0 and above every earlier value, and every
/// such position is listed. (A trace is held in memory, so its length fits `usize`.)
pub proof fn lemma_envelope_is_new_highs(s: Seq<u32>)
    requires
        s.len() <= usize::MAX,
    ensures
        forall|i: int| 0 <= i < rises(s).len() ==> is_new_high(s, #[trigger] rises(s)[i] as int),
        forall|j: int| is_new_high(s, j) ==> rises(s).contains(j as usize),
        forall|i: int, k: int| 0 <= i < k < rises(s).len() ==> #[trigger] rises(s)[i] < #[trigger] rises(s)[k],
        forall|i: int| 0 <= i < rises(s).len() ==> #[trigger] rises(s)[i] < s.len(),
    decreases s.len(),
{
    if s.len() > 0 {
        let t = s.drop_last();
        let n = s.len() - 1;
        lemma_envelope_is_new_highs(t);
        lemma_running_max(t);
        let rt = rises(t);
        // A position before the last is a new high of `s` exactly when it is one of `t`.
        assert forall|j: int| 0 <= j < n implies is_new_high(s, j) == is_new_high(t, j) by {
            assert(s[j] == t[j]);
            if is_new_high(t, j) {
                assert forall|k: int| 0 <= k < j implies s[k] < s[j] by {
                    assert(s[k] == t[k]);
                }
            }
            if is_new_high(s, j) {
                assert forall|k: int| 0 <= k < j implies t[k] < t[j] by {
                    assert(s[k] == t[k]);
                }
            }
        }
        // The last position is a new high exactly when it exceeds the running maximum.
        assert(is_new_high(s, n) == (s.last() > running_max(t))) by {
            if s.last() > running_max(t) {
                assert forall|k: int| 0 <= k < n implies s[k] < s[n] by {
                    assert(s[k] == t[k]);
                }
            }
            if is_new_high(s, n) && running_max(t) != 0 {
                let k = choose|k: int| 0 <= k < t.len() && t[k] == running_max(t);
                assert(s[k] == t[k]);
            }
        }
        let r = rises(s);
        assert(s.last() > running_max(t) ==> r == rt.push(n as usize));
        assert(!(s.last() > running_max(t)) ==> r == rt);
        assert forall|i: int| 0 <= i < r.len() implies is_new_high(s, #[trigger] r[i] as int) by {
            if i < rt.len() {
                assert(r[i] == rt[i]);
                assert(rt[i] < n);
            } else {
                assert(r[i] == n as usize);
            }
        }
        assert forall|j: int| is_new_high(s, j) implies r.contains(j as usize) by {
            if j < n {
                assert(is_new_high(t, j));
                let i = choose|i: int| 0 <= i < rt.len() && rt[i] == j as usize;
                assert(r[i] == rt[i]);
            } else {
                assert(r[r.len() - 1] == n as usize);
            }
        }
        assert forall|i: int, k: int| 0 <= i < k < r.len() implies #[trigger] r[i] < #[trigger] r[k] by {
            assert(r[i] == rt[i]);
            assert(rt[i] < n);
            if k < rt.len() {
                assert(r[k] == rt[k]);
            } else {
                assert(r[k] == n as usize);
            }
        }
        assert forall|i: int| 0 <= i < r.len() implies #[trigger] r[i] < s.len() by {
            if i < rt.len() {
                assert(r[i] == rt[i]);
            }
        }
    }
}

/// Nanoseconds since the Unix epoch at `t`.
pub open spec fn nanos_since_epoch(t: Timestamp) -> int {
    t.secs * 1_000_000_000 + t.nanos
}

/// Width of a throughput bucket: 10 ms, in nanoseconds.
pub const BUCKET_NANOS: i128 = 10_000_000;

/// A throughput sample recorded at `now` starts a new bucket when there is no bucket
/// yet or the last one started more than 10 ms before `now`.
pub fn starts_new_bucket(last: Option<Timestamp>, now: Timestamp) -> (r: bool)
    ensures
        r == match last {
            None => true,
            Some(t) => nanos_since_epoch(t) + BUCKET_NANOS < nanos_since_epoch(now),
        },
{
    match last {
        None => true,
        Some(t) => {
            let a = (t.secs as i128) * 1_000_000_000 + (t.nanos as i128);
            let b = (now.secs as i128) * 1_000_000_000 + (now.nanos as i128);
            a + BUCKET_NANOS < b
        },
    }
}

}

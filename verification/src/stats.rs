//! Statistics recorded from the events that a transfer emits, written into a
//! recorder that the caller keeps a handle to.

use vstd::prelude::*;
use std::cell::RefCell;
use std::rc::Rc;
use crate::clock::{same_text, stamped, utc_now, Timestamp};

verus! {

#[verifier::external_type_specification]
#[verifier::external_body]
#[verifier::reject_recursive_types(T)]
pub struct ExRefCell<T: ?Sized>(std::cell::RefCell<T>);

/// `Rc::clone`: the new handle points to the same value.
#[verifier::external_body]
fn share_rc<T>(a: &Rc<T>) -> (r: Rc<T>)
    ensures
        r == *a,
{
    Rc::clone(a)
}

/// A recorder fed with the integer and string fields of events.
pub trait StatsRecorder: Sized {
    /// Records an integer field of an event. Unless overridden, it ignores the field.
    fn record_int(&mut self, _field: &str, _value: i128)
        default_ensures
            *final(self) == *old(self),
    {
    }

    /// Records a string field of an event. Unless overridden, it ignores the field.
    fn record_str(&mut self, _field: &str, _value: &str)
        default_ensures
            *final(self) == *old(self),
    {
    }
}

/// Feeds the events it sees to a recorder that its creator shares.
#[verifier::reject_recursive_types(R)]
pub struct StatsLayer<R> {
    recorder: Rc<RefCell<R>>,
}

impl<R> StatsLayer<R> {
    /// The recorder this layer feeds.
    pub closed spec fn target(&self) -> Rc<RefCell<R>> {
        self.recorder
    }

    /// A layer that feeds `recorder`.
    pub fn new(recorder: Rc<RefCell<R>>) -> (r: Self)
        ensures
            r.target() == recorder,
    {
        StatsLayer { recorder }
    }

    /// A handle to the recorder this layer feeds.
    pub fn recorder(&self) -> (r: Rc<RefCell<R>>)
        ensures
            r == self.target(),
    {
        share_rc(&self.recorder)
    }
}

/// Sequence numbers of acknowledgements received and of frames reported lost, each
/// with the time it was recorded (`None` where the clock could not be read).
pub struct TraceRecorder {
    pub ack_timestamps: Vec<Option<Timestamp>>,
    pub acks: Vec<u32>,
    pub frame_timestamps: Vec<Option<Timestamp>>,
    pub frames: Vec<u32>,
    pub lost_timestamps: Vec<Option<Timestamp>>,
    pub losses: Vec<u32>,
}

impl Default for TraceRecorder {
    fn default() -> (r: Self)
        ensures
            r.ack_timestamps@.len() == 0 && r.acks@.len() == 0,
            r.frame_timestamps@.len() == 0 && r.frames@.len() == 0,
            r.lost_timestamps@.len() == 0 && r.losses@.len() == 0,
    {
        TraceRecorder {
            ack_timestamps: Vec::with_capacity(1 << 15),
            acks: Vec::with_capacity(1 << 15),
            frame_timestamps: Vec::with_capacity(1 << 15),
            frames: Vec::with_capacity(1 << 15),
            lost_timestamps: Vec::with_capacity(1024),
            losses: Vec::with_capacity(1024),
        }
    }
}

impl StatsRecorder for TraceRecorder {
    /// `rseq` and `lost` each append the value, cut to 32 bits, and the time to their
    /// own pair of lists; other fields are ignored. The time is `None` when the clock
    /// cannot be read.
    fn record_int(&mut self, field: &str, value: i128)
        ensures
            field@ == "rseq"@ ==> {
                &&& final(self).acks@ == old(self).acks@.push(#[verifier::truncate] (value as u32))
                &&& stamped(old(self).ack_timestamps@, final(self).ack_timestamps@)
                &&& final(self).losses@ == old(self).losses@ && final(self).lost_timestamps@ == old(self).lost_timestamps@
                &&& final(self).frames@ == old(self).frames@ && final(self).frame_timestamps@ == old(self).frame_timestamps@
            },
            field@ == "lost"@ ==> {
                &&& final(self).losses@ == old(self).losses@.push(#[verifier::truncate] (value as u32))
                &&& stamped(old(self).lost_timestamps@, final(self).lost_timestamps@)
                &&& final(self).acks@ == old(self).acks@ && final(self).ack_timestamps@ == old(self).ack_timestamps@
                &&& final(self).frames@ == old(self).frames@ && final(self).frame_timestamps@ == old(self).frame_timestamps@
            },
            field@ != "rseq"@ && field@ != "lost"@ ==> *final(self) == *old(self),
    {
        proof {
            reveal_strlit("rseq");
            reveal_strlit("lost");
            assert("rseq"@.len() == 4);
            assert("lost"@.len() == 4);
            assert("rseq"@[0] != "lost"@[0]);
        }
        if same_text(field, "rseq") {
            self.ack_timestamps.push(utc_now());
            self.acks.push(#[verifier::truncate] (value as u32));
            assert(self.ack_timestamps@.take(old(self).ack_timestamps@.len() as int) =~= old(self).ack_timestamps@);
        } else if same_text(field, "lost") {
            self.lost_timestamps.push(utc_now());
            self.losses.push(#[verifier::truncate] (value as u32));
            assert(self.lost_timestamps@.take(old(self).lost_timestamps@.len() as int) =~= old(self).lost_timestamps@);
        }
    }
}

/// Smoothed round-trip time estimates, with the time each was recorded (`None`
/// where the clock could not be read).
pub struct SrttRecorder {
    pub timestamps: Vec<Option<Timestamp>>,
    pub values: Vec<u64>,
}

impl Default for SrttRecorder {
    fn default() -> (r: Self)
        ensures
            r.timestamps@.len() == 0 && r.values@.len() == 0,
    {
        SrttRecorder { timestamps: Vec::with_capacity(4096), values: Vec::with_capacity(4096) }
    }
}

impl StatsRecorder for SrttRecorder {
    /// `srtt` appends the value, cut to 64 bits, and the time (`None` when the clock
    /// cannot be read); other fields are ignored.
    fn record_int(&mut self, field: &str, value: i128)
        ensures
            field@ == "srtt"@ ==> final(self).values@ == old(self).values@.push(#[verifier::truncate] (value as u64))
                && stamped(old(self).timestamps@, final(self).timestamps@),
            field@ != "srtt"@ ==> *final(self) == *old(self),
    {
        if same_text(field, "srtt") {
            self.timestamps.push(utc_now());
            self.values.push(#[verifier::truncate] (value as u64));
            assert(self.timestamps@.take(old(self).timestamps@.len() as int) =~= old(self).timestamps@);
        }
    }
}


/// Successive sizes of the sending window, from `window_len` fields.
pub struct WindowStatsRecorder {
    pub next: String,
    pub values: Vec<i64>,
}

impl Default for WindowStatsRecorder {
    fn default() -> (r: Self)
        ensures
            r.next@.len() == 0 && r.values@.len() == 0,
    {
        WindowStatsRecorder { next: String::new(), values: Vec::new() }
    }
}

impl StatsRecorder for WindowStatsRecorder {
    /// `window_len` appends the value, cut to 64 bits; other fields are ignored.
    fn record_int(&mut self, field: &str, value: i128)
        ensures
            field@ == "window_len"@ ==> final(self).values@ == old(self).values@.push(#[verifier::truncate] (value as i64))
                && final(self).next@ == old(self).next@,
            field@ != "window_len"@ ==> *final(self) == *old(self),
    {
        if same_text(field, "window_len") {
            self.values.push(#[verifier::truncate] (value as i64));
        }
    }
}

}

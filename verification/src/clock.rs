//! Wall-clock timestamps attached to recorded events.

use vstd::prelude::*;
use vstd::string::StringSliceAdditionalSpecFns;

verus! {

/// A point in time as chrono's `DateTime<Utc>` holds it: whole seconds since the
/// Unix epoch and the nanoseconds past that second.
#[derive(Clone, Copy, Debug, PartialEq, Eq, Structural)]
pub struct Timestamp {
    pub secs: i64,
    pub nanos: u32,
}

/// `SystemTime::elapsed` on `UNIX_EPOCH`: the time since 1970 on the system clock,
/// as whole seconds and the nanoseconds past them, or `None` when the clock reads an
/// earlier time. The nanosecond part is below one second (`Duration::subsec_nanos`).
/// What the clock reads is not stated.
#[verifier::external_body]
fn since_epoch() -> (r: Option<(u64, u32)>)
    ensures
        r matches Some(d) ==> d.1 < 1_000_000_000,
{
    match std::time::UNIX_EPOCH.elapsed() {
        Ok(d) => Some((d.as_secs(), d.subsec_nanos())),
        Err(_) => None,
    }
}

/// chrono's `DateTime::<Utc>::from_timestamp`, read back with `DateTime::timestamp` and
/// `DateTime::timestamp_subsec_nanos`. chrono guarantees that these round-trip, so a
/// result holds the given seconds and nanoseconds. chrono returns `None` only for
/// seconds out of its range (years beyond ±262142) or invalid nanoseconds; so for
/// times from 1970 up to 10^11 seconds later (about year 5138) with nanoseconds below
/// one second it returns `Some`. Where exactly chrono's range ends is not stated.
#[verifier::external_body]
fn utc_from_timestamp(secs: i64, nanos: u32) -> (r: Option<Timestamp>)
    ensures
        r matches Some(t) ==> t == (Timestamp { secs, nanos }),
        0 <= secs < 100_000_000_000 && nanos < 1_000_000_000 ==> r == Some(Timestamp { secs, nanos }),
{
    match chrono::DateTime::<chrono::Utc>::from_timestamp(secs, nanos) {
        Some(d) => Some(Timestamp { secs: d.timestamp(), nanos: d.timestamp_subsec_nanos() }),
        None => None,
    }
}

/// A time read from the clock that a recorder can hold: not before 1970, and its
/// nanosecond part below one second. `None` stands for a clock that could not be read.
pub open spec fn readable_time(t: Option<Timestamp>) -> bool {
    t matches Some(x) ==> x.secs >= 0 && x.nanos < 1_000_000_000
}

/// The UTC time of a reading of the system clock (seconds and nanoseconds since
/// 1970, `None` for a clock before 1970), as chrono's `Utc::now` turns it into a
/// `DateTime`: the same seconds and nanoseconds, or `None` where `Utc::now` would
/// panic (a clock before 1970, or seconds beyond chrono's range). Within 10^11
/// seconds of 1970 every reading gives its own time.
pub fn utc_time_of(reading: Option<(u64, u32)>) -> (r: Option<Timestamp>)
    ensures
        reading is None ==> r is None,
        reading matches Some(d) ==> (r matches Some(t) ==> t.secs == d.0 && t.nanos == d.1),
        reading matches Some(d) ==> (d.0 < 100_000_000_000 && d.1 < 1_000_000_000
            ==> r == Some(Timestamp { secs: d.0 as i64, nanos: d.1 })),
{
    match reading {
        Some((secs, nanos)) => {
            if secs <= i64::MAX as u64 {
                utc_from_timestamp(secs as i64, nanos)
            } else {
                None
            }
        },
        None => None,
    }
}

/// The current UTC time, as chrono's `Utc::now` computes it (the system clock's time
/// since 1970, turned into a `DateTime` by `from_timestamp`), or `None` where that
/// would panic: the clock reads a time before 1970, or one outside chrono's range.
pub fn utc_now() -> (r: Option<Timestamp>)
    ensures
        readable_time(r),
{
    utc_time_of(since_epoch())
}

/// True when `b` is `a` with one more element at its end.
pub open spec fn grew_by_one<T>(a: Seq<T>, b: Seq<T>) -> bool {
    b.len() == a.len() + 1 && b.take(a.len() as int) == a
}

/// True when the list of times `b` is `a` with one more time at its end, read from
/// the clock: a readable time, or `None` when the clock could not be read.
pub open spec fn stamped(a: Seq<Option<Timestamp>>, b: Seq<Option<Timestamp>>) -> bool {
    grew_by_one(a, b) && readable_time(b.last())
}

/// Whether two strings are the same text.
pub fn same_text(a: &str, b: &str) -> (r: bool)
    ensures
        r == (a@ == b@),
{
    let x = a.as_bytes();
    let y = b.as_bytes();
    let mut eq = x.len() == y.len();
    let mut i: usize = 0;
    while eq && i < x.len()
        invariant
            eq ==> x@.len() == y@.len(),
            i <= x@.len(),
            eq ==> forall|j: int| 0 <= j < i ==> x@[j] == y@[j],
            !eq ==> x@ != y@,
        decreases x@.len() - i,
    {
        if x[i] != y[i] {
            eq = false;
        }
        i = i + 1;
    }
    if eq {
        assert(x@ =~= y@);
    }
    proof {
        broadcast use vstd::utf8::encode_utf8_decode_utf8;
        if eq {
            assert(vstd::utf8::decode_utf8(a.spec_bytes()) == a@);
            assert(vstd::utf8::decode_utf8(b.spec_bytes()) == b@);
        }
    }
    eq
}

}

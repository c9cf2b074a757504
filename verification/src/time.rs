//! Spans of time and points on a monotonic clock, as plain numbers.

use vstd::prelude::*;

verus! {

/// A span of time.
#[derive(Debug, Clone, Copy, PartialEq, Eq, Structural)]
pub struct Duration {
    pub secs: u64,
    pub nanos: u32,
}

impl Duration {
    pub open spec fn in_nanos(self) -> nat {
        (self.secs * 1_000_000_000 + self.nanos) as nat
    }

    pub open spec fn in_millis(self) -> nat {
        (self.secs * 1_000 + self.nanos / 1_000_000) as nat
    }

    /// A span of whole seconds.
    pub fn from_secs(secs: u64) -> (r: Self)
        ensures
            r == (Duration { secs, nanos: 0 }),
    {
        Duration { secs, nanos: 0 }
    }

    /// A span of milliseconds.
    pub fn from_millis(millis: u64) -> (r: Self)
        ensures
            r.in_millis() == millis,
            r.in_nanos() == millis * 1_000_000,
            r.nanos < 1_000_000_000,
    {
        let rest: u64 = millis % 1_000;
        Duration { secs: millis / 1_000, nanos: rest as u32 * 1_000_000 }
    }

    /// The whole seconds of the span.
    pub fn as_secs(&self) -> (r: u64)
        ensures
            r == self.secs,
    {
        self.secs
    }

    /// The whole milliseconds of the span.
    pub fn as_millis(&self) -> (r: u128)
        ensures
            r == self.in_millis(),
    {
        self.secs as u128 * 1_000 + (self.nanos / 1_000_000) as u128
    }

    /// The nanoseconds of the span.
    pub fn as_nanos(&self) -> (r: u128)
        ensures
            r == self.in_nanos(),
    {
        self.secs as u128 * 1_000_000_000 + self.nanos as u128
    }
}

/// A point in time: nanoseconds on a monotonic clock.
#[derive(Debug, Clone, Copy, PartialEq, Eq, Structural)]
pub struct Instant {
    pub nanos: u128,
}

/// The nanoseconds from one point to a later one; nothing if it is not later.
pub open spec fn since(now: nat, earlier: nat) -> nat {
    if now >= earlier {
        (now - earlier) as nat
    } else {
        0
    }
}

/// The points that a clock can show: at most the longest span after its start.
pub open spec fn in_clock_range(at: Instant) -> bool {
    at.nanos <= (Duration { secs: u64::MAX, nanos: 999_999_999 }).in_nanos()
}

impl Instant {
    /// The point that lies a span later.
    pub fn plus(self, span: Duration) -> (r: Self)
        requires
            self.nanos + span.in_nanos() <= u128::MAX,
        ensures
            r.nanos == self.nanos + span.in_nanos(),
    {
        Instant { nanos: self.nanos + span.as_nanos() }
    }

    /// The nanoseconds since an earlier point; nothing since a later one.
    pub fn nanos_since(self, earlier: Instant) -> (r: u128)
        ensures
            r == since(self.nanos as nat, earlier.nanos as nat),
    {
        if self.nanos >= earlier.nanos {
            self.nanos - earlier.nanos
        } else {
            0
        }
    }
}

/// A point on the machine's monotonic clock. Nothing is known of its value.
#[verifier::external_type_specification]
#[verifier::external_body]
pub struct ExStdInstant(std::time::Instant);

/// `std::time::Instant::now` reads the machine's monotonic clock.
#[verifier::external_body]
fn machine_now() -> std::time::Instant {
    std::time::Instant::now()
}

/// `std::time::Instant::elapsed` measures the time since a point. It depends on
/// when it is called; all that is claimed is that the part below a second is
/// less than a second.
#[verifier::external_body]
fn span_elapsed(start: &std::time::Instant) -> (r: Duration)
    ensures
        r.nanos < 1_000_000_000,
{
    let span = start.elapsed();
    Duration { secs: span.as_secs(), nanos: span.subsec_nanos() }
}

/// `std::time::SystemTime::elapsed` measures the wall-clock time since the Unix
/// epoch; it fails before the epoch. It depends on when it is called, so
/// nothing is claimed of the number.
#[verifier::external_body]
pub(crate) fn wall_clock_millis() -> Option<u128> {
    match std::time::UNIX_EPOCH.elapsed() {
        Ok(d) => Some(d.as_millis()),
        Err(_) => None,
    }
}

/// A clock that started at zero.
#[derive(Debug)]
pub struct Clock {
    start: std::time::Instant,
}

impl Clock {
    /// Starts a clock.
    pub fn start() -> Self {
        Clock { start: machine_now() }
    }

    /// The time since the clock started. Any span can be added to it.
    pub fn now(&self) -> (r: Instant)
        ensures
            in_clock_range(r),
    {
        Instant { nanos: span_elapsed(&self.start).as_nanos() }
    }
}

/// A second has a thousand milliseconds, and a millisecond a million
/// nanoseconds.
pub proof fn lemma_units_of_time(secs: u64, millis: u32)
    requires
        millis < 1000,
    ensures
        ({
            let span = Duration { secs, nanos: (millis * 1_000_000) as u32 };
            &&& span.in_nanos() == secs * 1_000_000_000 + millis * 1_000_000
            &&& span.in_millis() == secs * 1000 + millis
        }),
{
}

/// The time since an earlier point is what is missing from it to now; since a
/// later one none has passed.
pub proof fn lemma_time_since(now: nat, earlier: nat)
    ensures
        earlier <= now ==> earlier + since(now, earlier) == now,
        earlier >= now ==> since(now, earlier) == 0,
{
}

} // verus!

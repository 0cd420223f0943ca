//! Time sources.

use vstd::prelude::*;

verus! {

/// Time source used by the engine.
///
/// All timestamps written to the event log come from this source, so that time
/// can be controlled without touching the host clock.
pub trait Clock: Sized {
    /// The time that this clock shows until it is advanced, where that is fixed.
    spec fn frozen_at(&self) -> Option<u64>;

    /// Whether the clock can be advanced to `timestamp_ms`.
    spec fn can_reach(&self, timestamp_ms: u64) -> bool;

    /// Current time in milliseconds since the Unix epoch.
    fn now_ms(&self) -> (now: u64)
        ensures
            self.frozen_at() is Some ==> self.frozen_at() == Some(now),
    ;

    /// Advance the clock to `timestamp_ms`. A clock that is not frozen ignores
    /// this.
    fn advance_clock_to(&mut self, timestamp_ms: u64)
        requires
            old(self).can_reach(timestamp_ms),
        ensures
            old(self).frozen_at() is Some ==> final(self).frozen_at() == Some(timestamp_ms),
            old(self).frozen_at() is None ==> final(self).frozen_at() is None,
    ;
}

/// `SystemTime::elapsed` of the Unix epoch, in milliseconds; none where the host clock
/// stands before the epoch. The host decides what it returns, so nothing is claimed.
#[verifier::external_body]
fn since_epoch() -> (r: Option<u64>) {
    match std::time::UNIX_EPOCH.elapsed() {
        Ok(span) => Some(span.as_millis() as u64),
        Err(_) => None,
    }
}

/// The time that a reading of the host clock shows: zero where the host clock stands
/// before the epoch.
pub fn shown(reading: Option<u64>) -> (now: u64)
    ensures
        now == (match reading {
            Some(ms) => ms,
            None => 0,
        }),
{
    match reading {
        Some(ms) => ms,
        None => 0,
    }
}

/// Production clock backed by the host's wall clock.
#[derive(Debug)]
pub struct SystemClock;

impl Clock for SystemClock {
    open spec fn frozen_at(&self) -> Option<u64> {
        None
    }

    open spec fn can_reach(&self, timestamp_ms: u64) -> bool {
        true
    }

    /// The host's time; zero where the host clock stands before the epoch.
    fn now_ms(&self) -> (now: u64) {
        shown(since_epoch())
    }

    /// The host clock cannot be advanced.
    fn advance_clock_to(&mut self, timestamp_ms: u64) {
    }
}

/// Clock with explicit manual advancement.
#[derive(Debug)]
pub struct MockClock {
    now: u64,
}

impl MockClock {
    /// The time that the clock shows.
    pub closed spec fn now(&self) -> u64 {
        self.now
    }

    /// Create a clock frozen at the given timestamp.
    pub fn at(timestamp_ms: u64) -> (r: Self)
        ensures
            r.now() == timestamp_ms,
    {
        MockClock { now: timestamp_ms }
    }
}

impl Clock for MockClock {
    open spec fn frozen_at(&self) -> Option<u64> {
        Some(self.now())
    }

    /// The clock cannot move backwards.
    open spec fn can_reach(&self, timestamp_ms: u64) -> bool {
        timestamp_ms >= self.now()
    }

    fn now_ms(&self) -> (now: u64) {
        self.now
    }

    fn advance_clock_to(&mut self, timestamp_ms: u64) {
        self.now = timestamp_ms;
    }
}

impl Default for MockClock {
    fn default() -> (r: Self)
        ensures
            r.now() == 0,
    {
        MockClock::at(0)
    }
}

} // verus!

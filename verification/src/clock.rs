//! Clocks: the interface that code under test reads the time through, and
//! a clock for tests that moves only when it is told to sleep.

use vstd::prelude::*;

verus! {

/// Nanoseconds in a second.
pub const NANOS_PER_SEC: i32 = 1000000000;

/// A point in time: seconds, and nanoseconds on top of them.
#[derive(Debug, Clone, Copy, PartialEq, Eq, Structural)]
pub struct Timespec {
    pub sec: i64,
    pub nsec: i32,
}

/// The nanoseconds that a sleep of `ms` milliseconds adds to a test clock:
/// the milliseconds below a million, in nanoseconds, cut to 32 bits.
pub open spec fn sleep_nanos(ms: u64) -> i32 {
    (((ms % 1000000) * 1000000) as u64) as i32
}

/// The time on a test clock that stood at `at`, after a sleep of `ms`
/// milliseconds: the nanoseconds are added, and once they pass a second the
/// whole seconds among them are carried over. Both sums wrap around at the
/// ends of their types.
pub open spec fn after_sleep(at: Timespec, ms: u64) -> Timespec {
    let nsec = at.nsec.wrapping_add(sleep_nanos(ms));
    if nsec > NANOS_PER_SEC {
        Timespec {
            sec: at.sec.wrapping_add((nsec / NANOS_PER_SEC) as i64),
            nsec: (nsec % NANOS_PER_SEC) as i32,
        }
    } else {
        Timespec { sec: at.sec, nsec }
    }
}

/// What tells the time and lets it pass.
pub trait Clock {
    /// The time now.
    fn now(&self) -> Timespec;

    /// Lets `ms` milliseconds pass.
    fn sleep_ms(&mut self, ms: u64);
}

/// A clock for tests. It starts at zero and moves only in `sleep_ms`.
#[derive(Debug)]
pub struct TestClock {
    inner: Timespec,
}

impl TestClock {
    /// The time that the clock shows.
    pub closed spec fn reading(&self) -> Timespec {
        self.inner
    }

    /// A clock that stands at zero.
    pub fn new() -> (clock: TestClock)
        ensures
            clock.reading() == (Timespec { sec: 0, nsec: 0 }),
    {
        TestClock { inner: Timespec { sec: 0, nsec: 0 } }
    }
}

impl Clock for TestClock {
    fn now(&self) -> (time: Timespec)
        ensures
            time == self.reading(),
    {
        self.inner
    }

    fn sleep_ms(&mut self, ms: u64)
        ensures
            final(self).reading() == after_sleep(old(self).reading(), ms),
    {
        let ns: u64 = (ms % 1000000) * 1000000;
        let added: i32 = #[verifier::truncate]
        (ns as i32);
        let nsec: i32 = self.inner.nsec.wrapping_add(added);
        if nsec > NANOS_PER_SEC {
            let carry: i64 = (nsec / NANOS_PER_SEC) as i64;
            self.inner.sec = self.inner.sec.wrapping_add(carry);
            self.inner.nsec = nsec % NANOS_PER_SEC;
        } else {
            self.inner.nsec = nsec;
        }
    }
}

} // verus!

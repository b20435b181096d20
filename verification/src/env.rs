//! The solver's environment: a deadline that long searches consult.

use vstd::prelude::*;

verus! {

/// A point in time, as the standard library's monotonic clock gives it.
#[verifier::external_type_specification]
#[verifier::external_body]
pub struct ExInstant(std::time::Instant);

/// The deadline has passed.
#[derive(Debug, Copy, Clone, PartialEq, Eq, Structural)]
pub struct Timeout;

/// A deadline in seconds, counted from the last reset of the timer.
#[derive(Debug)]
pub struct Env {
    deadline: u64,
    started: std::time::Instant,
}

/// `std::time::Instant::now`: the present moment. Nothing is claimed of it.
#[verifier::external_body]
fn now() -> (t: std::time::Instant) {
    std::time::Instant::now()
}

/// `std::time::Instant::elapsed`: the time that has passed since `since`.
/// Nothing is claimed of it.
#[verifier::external_body]
fn elapsed(since: &std::time::Instant) -> (d: std::time::Duration) {
    since.elapsed()
}

/// `std::time::Duration::as_secs`: the whole seconds of a duration. Nothing
/// is claimed of them.
#[verifier::external_body]
fn whole_secs(d: &std::time::Duration) -> (secs: u64) {
    d.as_secs()
}

impl Env {
    /// The seconds allowed between a reset of the timer and a timeout.
    pub closed spec fn deadline(&self) -> u64 {
        self.deadline
    }

    /// An environment whose timer starts now and runs for `deadline`
    /// seconds.
    pub fn new(deadline: u64) -> (env: Env)
        ensures
            env.deadline() == deadline,
    {
        Env { deadline, started: now() }
    }

    /// Starts the timer again, at the present moment.
    pub fn reset_timer(&mut self)
        ensures
            final(self).deadline() == old(self).deadline(),
    {
        self.restart_at(now());
    }

    /// Whether a timer that has run for `elapsed` seconds has reached a
    /// deadline of `deadline` seconds.
    pub fn verdict(deadline: u64, elapsed: u64) -> (res: Result<(), Timeout>)
        ensures
            res is Err <==> elapsed >= deadline,
    {
        if elapsed >= deadline {
            Err(Timeout)
        } else {
            Ok(())
        }
    }

    /// Fails once the whole seconds since the last reset have reached the
    /// deadline. With a deadline of zero it always fails.
    pub fn check_timeout(&self) -> (res: Result<(), Timeout>)
        ensures
            self.deadline() == 0 ==> res is Err,
    {
        let d = elapsed(&self.started);
        Env::verdict(self.deadline, whole_secs(&d))
    }

    /// The moment from which the timer counts.
    pub closed spec fn started(&self) -> std::time::Instant {
        self.started
    }

    /// Starts the timer again, at the moment `at`.
    pub fn restart_at(&mut self, at: std::time::Instant)
        ensures
            final(self).started() == at,
            final(self).deadline() == old(self).deadline(),
    {
        self.started = at;
    }
}

} // verus!

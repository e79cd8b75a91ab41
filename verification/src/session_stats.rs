//! Session statistics: the visit count and the start/finish timestamps of one
//! crawl run.  Timestamps are nanoseconds since the Unix epoch, read from the
//! clock through one trusted wrapper.

use vstd::prelude::*;

use crate::error::Error;
use chrono::{DateTime, Utc};

verus! {

/// Statistics of one crawl session.  `total_visited` only ever grows; the
/// timestamps are set by `start_session` and `finish_session` (calling a
/// setter again overwrites its timestamp).
#[derive(Clone, Copy, Debug)]
pub struct SessionStats {
    pub total_visited: u64,
    pub started_at: Option<i64>,
    pub finished_at: Option<i64>,
}

/// Relies on `chrono::DateTime::<Utc>::from(SystemTime)` and
/// `DateTime::timestamp_nanos_opt`: the nanoseconds since the Unix epoch, or
/// `None` outside the representable range.  The conversion handles a clock
/// set before the epoch without panicking.  Nothing is promised of the
/// clock's reading.
#[verifier::external_body]
fn now_nanos() -> (r: Option<i64>) {
    DateTime::<Utc>::from(std::time::SystemTime::now()).timestamp_nanos_opt()
}

/// The difference `a - b`, saturated to the `i64` range.
pub open spec fn sat_sub(a: i64, b: i64) -> i64 {
    if a - b > i64::MAX {
        i64::MAX
    } else if a - b < i64::MIN {
        i64::MIN
    } else {
        (a - b) as i64
    }
}

fn sub_saturating(a: i64, b: i64) -> (r: i64)
    ensures
        r == sat_sub(a, b),
{
    let wide: i128 = a as i128 - b as i128;
    if wide > i64::MAX as i128 {
        i64::MAX
    } else if wide < i64::MIN as i128 {
        i64::MIN
    } else {
        wide as i64
    }
}

impl SessionStats {
    /// Fresh statistics: nothing visited, no timestamps.
    pub fn new() -> (r: SessionStats)
        ensures
            r.total_visited == 0,
            r.started_at is None,
            r.finished_at is None,
    {
        SessionStats { total_visited: 0, started_at: None, finished_at: None }
    }

    /// Count `count` visits, or one visit when no count is supplied.
    pub fn add_visit(&mut self, count: Option<u64>)
        requires
            old(self).total_visited + (match count {
                Some(c) => c,
                None => 1u64,
            }) <= u64::MAX,
        ensures
            final(self).total_visited == old(self).total_visited + (match count {
                Some(c) => c,
                None => 1u64,
            }),
            final(self).started_at == old(self).started_at,
            final(self).finished_at == old(self).finished_at,
    {
        match count {
            Some(visited) => self.total_visited = self.total_visited + visited,
            None => self.total_visited = self.total_visited + 1,
        };
    }

    /// Record the start of the session: `started_at` becomes the clock's
    /// reading now.
    pub fn start_session(&mut self)
        ensures
            final(self).started_at is Some,
            final(self).total_visited == old(self).total_visited,
            final(self).finished_at == old(self).finished_at,
    {
        let t = match now_nanos() {
            Some(n) => n,
            None => 0,
        };
        self.started_at = Some(t);
    }

    /// Record the end of the session: `finished_at` becomes the clock's
    /// reading now, but never earlier than `started_at`, so that a session
    /// finished after it was started keeps `started_at <= finished_at` even
    /// when the wall clock stepped backwards in between.
    pub fn finish_session(&mut self)
        ensures
            final(self).finished_at is Some,
            old(self).started_at matches Some(s) ==> final(self).finished_at.unwrap() >= s,
            final(self).total_visited == old(self).total_visited,
            final(self).started_at == old(self).started_at,
    {
        let now = match now_nanos() {
            Some(n) => n,
            None => 0,
        };
        let t = match self.started_at {
            Some(s) => if now < s {
                s
            } else {
                now
            },
            None => now,
        };
        self.finished_at = Some(t);
    }

    /// The elapsed time of the session in nanoseconds: `finished - started`
    /// when both timestamps are set, the time from `started` until now when
    /// only the start is set, and an `InvalidState` error when the session
    /// was never started.
    pub fn elapsed_time(&self) -> (r: Result<i64, Error>)
        ensures
            match (self.started_at, self.finished_at) {
                (Some(s), Some(f)) => r == Ok::<i64, Error>(sat_sub(f, s)),
                (Some(s), None) => r is Ok,
                (None, _) => r == Err::<i64, Error>(Error::InvalidState),
            },
    {
        match (self.started_at, self.finished_at) {
            (Some(started), Some(finished)) => Ok(sub_saturating(finished, started)),
            (Some(started), None) => {
                let now = match now_nanos() {
                    Some(n) => n,
                    None => 0,
                };
                Ok(sub_saturating(now, started))
            },
            _ => Err(Error::InvalidState),
        }
    }
}

/// The elapsed time of a session that finished no earlier than it started is
/// non-negative.  (Nothing orders the two raw clock readings themselves: a
/// wall clock may be set backwards between them.)
pub proof fn lemma_elapsed_nonneg(s: SessionStats)
    requires
        s.started_at is Some,
        s.finished_at is Some,
        s.started_at.unwrap() <= s.finished_at.unwrap(),
    ensures
        sat_sub(s.finished_at.unwrap(), s.started_at.unwrap()) >= 0,
{
}

} // verus!

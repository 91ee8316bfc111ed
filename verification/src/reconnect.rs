//! Client reconnect policy.
//!
//! When the connection is lost, the client releases it and a timer-driven
//! policy periodically attempts `connect` again, backing off a little more
//! after every failed attempt.  The policy itself is pure bookkeeping over
//! elapsed milliseconds; the caller performs the actual connect and reports
//! success back.

use vstd::prelude::*;

verus! {

/// How long the very first attempt waits, in milliseconds.
pub const FIRST_DELAY_MS: u64 = 10;

/// How much each failed attempt lengthens the wait, in milliseconds.
pub const BACKOFF_STEP_MS: u64 = 2000;

/// The wait after a successful connect, should the connection drop again,
/// in milliseconds.
pub const RESET_DELAY_MS: u64 = 2000;

/// Timer-driven reconnect bookkeeping: how long until the next attempt,
/// how long has passed, and how many attempts failed in a row.
pub struct ReconnectState {
    /// Wait this many milliseconds between attempts.
    pub delay_ms: u64,
    /// Milliseconds elapsed since the last attempt (or since the start).
    pub elapsed_ms: u64,
    /// Failed attempts since the last successful connect.
    pub attempt: usize,
}

impl ReconnectState {
    /// A fresh policy: first attempt after a near-immediate delay.
    pub fn new() -> (r: ReconnectState)
        ensures
            r.delay_ms == FIRST_DELAY_MS,
            r.elapsed_ms == 0,
            r.attempt == 0,
    {
        ReconnectState { delay_ms: FIRST_DELAY_MS, elapsed_ms: 0, attempt: 0 }
    }

    /// Advance the timer by `dt_ms` while disconnected.  Returns true when
    /// the wait is over: the caller should attempt one connect now.  Each
    /// such attempt restarts the timer, counts the attempt, and lengthens
    /// the next wait by one backoff step.
    pub fn tick(&mut self, dt_ms: u64) -> (attempt_now: bool)
        ensures
            attempt_now == (old(self).elapsed_ms + dt_ms >= old(self).delay_ms),
            attempt_now ==> {
                &&& final(self).elapsed_ms == 0
                &&& final(self).attempt == if old(self).attempt < usize::MAX {
                    (old(self).attempt + 1) as usize
                } else {
                    usize::MAX
                }
                &&& final(self).delay_ms == if old(self).delay_ms + BACKOFF_STEP_MS <= u64::MAX {
                    (old(self).delay_ms + BACKOFF_STEP_MS) as u64
                } else {
                    u64::MAX
                }
            },
            !attempt_now ==> {
                &&& final(self).elapsed_ms == old(self).elapsed_ms + dt_ms
                &&& final(self).attempt == old(self).attempt
                &&& final(self).delay_ms == old(self).delay_ms
            },
    {
        let elapsed = self.elapsed_ms.saturating_add(dt_ms);
        proof {
            // saturation cannot hide a crossed deadline: at the saturated
            // value the deadline is crossed anyway
            assert(elapsed >= self.delay_ms <==> self.elapsed_ms + dt_ms >= self.delay_ms);
        }
        if elapsed >= self.delay_ms {
            self.elapsed_ms = 0;
            self.attempt = self.attempt.saturating_add(1);
            self.delay_ms = self.delay_ms.saturating_add(BACKOFF_STEP_MS);
            true
        } else {
            self.elapsed_ms = elapsed;
            false
        }
    }

    /// A connect succeeded: clear the attempt count and fall back to the
    /// ordinary delay for any later reconnect.
    pub fn connected(&mut self)
        ensures
            final(self).delay_ms == RESET_DELAY_MS,
            final(self).elapsed_ms == 0,
            final(self).attempt == 0,
    {
        self.delay_ms = RESET_DELAY_MS;
        self.elapsed_ms = 0;
        self.attempt = 0;
    }
}

impl Default for ReconnectState {
    fn default() -> (r: ReconnectState)
        ensures
            r.delay_ms == FIRST_DELAY_MS,
            r.elapsed_ms == 0,
            r.attempt == 0,
    {
        ReconnectState::new()
    }
}

} // verus!

//! Decisions of the active-mode supervisor, which dials the peer
//! instead of listening: exponential backoff with a cap, a failure
//! counter, and the cadence of its progress reports.

use vstd::prelude::*;

verus! {

pub const INITIAL_BACKOFF_SECS: u64 = 2;

pub const MAX_BACKOFF_SECS: u64 = 30;

pub const CONNECT_TIMEOUT_SECS: u64 = 10;

pub const FAILURE_LOG_EVERY: u32 = 5;

pub const FAILURE_HEARTBEAT_EVERY: u32 = 10;

/// What to report after one failed connection attempt.
#[derive(Debug, Clone, PartialEq, Eq, Structural)]
pub struct FailureActions {
    pub log_error: bool,
    pub heartbeat: bool,
}

/// Supervisor state: consecutive failures and the current backoff.
#[derive(Debug, Clone, PartialEq, Eq, Structural)]
pub struct RetryState {
    pub retry_count: u32,
    pub backoff_secs: u64,
}

impl RetryState {
    /// Fresh supervisor state: no failures, shortest backoff.
    pub fn new() -> (s: RetryState)
        ensures
            s.retry_count == 0,
            s.backoff_secs == INITIAL_BACKOFF_SECS,
    {
        RetryState { retry_count: 0, backoff_secs: INITIAL_BACKOFF_SECS }
    }

    /// A connection attempt succeeded: failures and backoff reset.
    pub fn on_connected(&mut self)
        ensures
            final(self).retry_count == 0,
            final(self).backoff_secs == INITIAL_BACKOFF_SECS,
    {
        self.retry_count = 0;
        self.backoff_secs = INITIAL_BACKOFF_SECS;
    }

    /// A connection attempt failed: count it, and say whether this is a
    /// failure to log (every fifth) or one that warrants a persistence
    /// heartbeat (every tenth).
    pub fn on_failure(&mut self) -> (a: FailureActions)
        ensures
            final(self).retry_count == if old(self).retry_count < u32::MAX {
                (old(self).retry_count + 1) as u32
            } else {
                u32::MAX
            },
            final(self).backoff_secs == old(self).backoff_secs,
            a.log_error == (final(self).retry_count % FAILURE_LOG_EVERY == 0),
            a.heartbeat == (final(self).retry_count % FAILURE_HEARTBEAT_EVERY == 0),
    {
        self.retry_count = self.retry_count.saturating_add(1);
        FailureActions {
            log_error: self.retry_count % FAILURE_LOG_EVERY == 0,
            heartbeat: self.retry_count % FAILURE_HEARTBEAT_EVERY == 0,
        }
    }

    /// How long to wait before the next attempt: the current backoff,
    /// which then doubles up to the cap.
    pub fn next_delay(&mut self) -> (d: u64)
        ensures
            d == old(self).backoff_secs,
            final(self).retry_count == old(self).retry_count,
            final(self).backoff_secs == if old(self).backoff_secs < MAX_BACKOFF_SECS {
                if 2 * old(self).backoff_secs < MAX_BACKOFF_SECS {
                    (2 * old(self).backoff_secs) as u64
                } else {
                    MAX_BACKOFF_SECS
                }
            } else {
                old(self).backoff_secs
            },
    {
        let d = self.backoff_secs;
        if self.backoff_secs < MAX_BACKOFF_SECS {
            let doubled = self.backoff_secs * 2;
            self.backoff_secs = if doubled < MAX_BACKOFF_SECS {
                doubled
            } else {
                MAX_BACKOFF_SECS
            };
        }
        d
    }
}

} // verus!

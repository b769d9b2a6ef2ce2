//! The live source of market data: how often a failed fetch is tried
//! again.

use vstd::prelude::*;

verus! {

/// What to do after a fetch has failed.
#[derive(Clone, Copy, Debug, PartialEq, Eq, Structural)]
pub enum RetryDecision {
    /// Give up and report the failure.
    GiveUp,
    /// Wait the given number of milliseconds, then fetch again.
    RetryAfter { millis: u64 },
}

/// Milliseconds to wait between two attempts.
pub const RETRY_PAUSE_MILLIS: u64 = 1000;

/// The live source: it fetches a snapshot over the network, trying up to
/// `retry_limit` times.
#[derive(Debug)]
pub struct MarketDataLive {
    retry_limit: u64,
}

impl MarketDataLive {
    /// The number of attempts after which a failure is reported.
    pub closed spec fn retry_limit(&self) -> u64 {
        self.retry_limit
    }

    /// A source that fetches once.
    pub fn new() -> (s: Self)
        ensures
            s.retry_limit() == 1,
    {
        MarketDataLive::new_with_retry(1)
    }

    /// A source that fetches up to `retry_limit` times.
    pub fn new_with_retry(retry_limit: u64) -> (s: Self)
        ensures
            s.retry_limit() == retry_limit,
    {
        MarketDataLive { retry_limit }
    }

    /// What to do after the fetch has failed for the `attempts`-th time in
    /// a row: give up once the limit is reached, else pause and fetch again.
    pub fn after_failure(&self, attempts: u64) -> (d: RetryDecision)
        ensures
            d == if attempts >= self.retry_limit() {
                RetryDecision::GiveUp
            } else {
                RetryDecision::RetryAfter { millis: RETRY_PAUSE_MILLIS }
            },
    {
        if attempts >= self.retry_limit {
            RetryDecision::GiveUp
        } else {
            RetryDecision::RetryAfter { millis: RETRY_PAUSE_MILLIS }
        }
    }
}

} // verus!

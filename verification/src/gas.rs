//! Gas metering: a counter of consumed gas with an optional ceiling.
//!
//! A tracker is created once per execution context (a whole block, or a
//! single transaction) and discarded after that context ends. A tracker
//! without a limit never rejects consumption; one with a limit rejects any
//! consumption that would push the total past the limit, leaving the counter
//! unchanged on failure.

use vstd::prelude::*;

verus! {

/// Error returned when a consumption attempt would exceed the gas limit.
///
/// `used` carries the candidate total (the amount already used plus the
/// rejected amount), so the caller can produce an auditable failure record.
#[derive(Debug, Clone, Copy, PartialEq, Eq, Structural)]
pub struct OutOfGasError {
    pub limit: u64,
    pub used: u64,
}

/// Tracks gas consumption; rejects consumption once the limit is exceeded.
pub struct GasTracker {
    /// `None` means there is no gas limit, as for privileged or system
    /// execution contexts.
    limit: Option<u64>,
    /// Amount of gas consumed so far; monotonically non-decreasing.
    used: u64,
}

impl GasTracker {
    /// The gas limit, `None` if unlimited.
    pub closed spec fn spec_limit(&self) -> Option<u64> {
        self.limit
    }

    /// The amount of gas consumed so far.
    pub closed spec fn spec_used(&self) -> u64 {
        self.used
    }

    /// Create a new gas tracker, with or without a gas limit.
    pub fn new(maybe_limit: Option<u64>) -> (r: Self)
        ensures
            r.spec_limit() == maybe_limit,
            r.spec_used() == 0,
    {
        Self { limit: maybe_limit, used: 0 }
    }

    /// Create a new gas tracker without a gas limit.
    pub fn new_limitless() -> (r: Self)
        ensures
            r.spec_limit() is None,
            r.spec_used() == 0,
    {
        Self { limit: None, used: 0 }
    }

    /// Create a new gas tracker with the given gas limit.
    pub fn new_limited(limit: u64) -> (r: Self)
        ensures
            r.spec_limit() == Some(limit),
            r.spec_used() == 0,
    {
        Self { limit: Some(limit), used: 0 }
    }

    /// Return the gas limit. `None` if there isn't a limit.
    pub fn limit(&self) -> (r: Option<u64>)
        ensures
            r == self.spec_limit(),
    {
        self.limit
    }

    /// Return the amount of gas already used.
    pub fn used(&self) -> (r: u64)
        ensures
            r == self.spec_used(),
    {
        self.used
    }

    /// Return the amount of gas remaining. `None` if there isn't a limit.
    ///
    /// The subtraction saturates at zero; as long as the tracker has only
    /// been changed through `consume`, the used amount never exceeds the
    /// limit, so saturation never takes effect.
    pub fn remaining(&self) -> (r: Option<u64>)
        ensures
            r is None <==> self.spec_limit() is None,
            match self.spec_limit() {
                Some(l) => r == Some(
                    if self.spec_used() <= l {
                        (l - self.spec_used()) as u64
                    } else {
                        0u64
                    },
                ),
                None => r is None,
            },
    {
        match self.limit {
            Some(l) => {
                if self.used <= l {
                    Some(l - self.used)
                } else {
                    Some(0)
                }
            },
            None => None,
        }
    }

    /// Consume the given amount of gas. Error if the limit is exceeded.
    ///
    /// The candidate total is the amount already used plus `consumed`. If a
    /// limit exists and the candidate exceeds it, the error carries the limit
    /// and the candidate total, and the counter is left unchanged: a failed
    /// attempt is never partially applied. Otherwise the candidate total is
    /// committed. A tracker without a limit never fails.
    pub fn consume(&mut self, consumed: u64, _comment: &str) -> (r: Result<(), OutOfGasError>)
        requires
            old(self).spec_used() + consumed <= u64::MAX,
        ensures
            final(self).spec_limit() == old(self).spec_limit(),
            match old(self).spec_limit() {
                Some(l) => {
                    if old(self).spec_used() + consumed > l {
                        r == Err::<(), OutOfGasError>(
                            (OutOfGasError { limit: l, used: (old(self).spec_used() + consumed) as u64 }),
                        ) && final(self).spec_used() == old(self).spec_used()
                    } else {
                        r == Ok::<(), OutOfGasError>(()) && final(self).spec_used() == old(
                            self,
                        ).spec_used() + consumed
                    }
                },
                None => r == Ok::<(), OutOfGasError>(()) && final(self).spec_used() == old(
                    self,
                ).spec_used() + consumed,
            },
    {
        let used = self.used + consumed;

        // If there is a limit, and the limit is exceeded, then throw error.
        if let Some(limit) = self.limit {
            if used > limit {
                return Err(OutOfGasError { limit, used });
            }
        }

        self.used = used;

        Ok(())
    }
}

} // verus!

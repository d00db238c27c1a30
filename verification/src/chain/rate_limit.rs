//! The issue-rate governor's bucket.
//!
//! Calls are paid for with tokens, counted in thousandths. Time puts tokens in, up to
//! a small burst; a call takes one out. Calls of high priority come first: a call of low
//! priority stands back as long as one of high priority waits, or it could starve the
//! very calls it depends on.
//!
//! The rate at which tokens flow in is a floating-point number that falls on throttling
//! and recovers on success. It is kept beside the bucket.

use vstd::prelude::*;

verus! {

/// One token in thousandths.
pub const TOKEN_MILLI: u64 = 1000;

/// The most that the bucket holds (64 tokens): a smooth rate, no bursts.
pub const MAX_BURST_MILLI: u64 = 64_000;

/// How long a run has to stay unthrottled before the rate recovers a step.
pub const RECOVER_INTERVAL_MS: u64 = 500;

/// Call class for two-tier priority.
#[derive(Debug, Clone, Copy, PartialEq, Eq, Structural)]
pub enum Priority {
    /// Segment-link calls, the critical path. Served first.
    High,
    /// Stitch copies and other deferrable calls. Yield to `High`.
    Low,
}

/// What becomes of one try to pay for a call.
#[derive(Debug, Clone, Copy, PartialEq, Eq, Structural)]
pub enum Grant {
    /// The call is paid for. `wake` says that those who stood back may try again.
    Granted { wake: bool },
    /// There is no whole token: try again when time has passed.
    Empty,
}

/// The governor's counters.
#[derive(Debug)]
pub struct TokenBucket {
    /// Available tokens in thousandths.
    tokens_milli: u64,
    /// When tokens were last put in, in milliseconds since the start.
    last_refill_ms: u64,
    /// How many calls of high priority wait.
    high_waiters: u64,
    /// When the rate last recovered a step or fell, in milliseconds since the start.
    last_recovery_ms: u64,
}

impl TokenBucket {
    /// Available tokens in thousandths.
    pub closed spec fn tokens(&self) -> nat {
        self.tokens_milli as nat
    }

    /// When tokens were last put in.
    pub closed spec fn last_refill(&self) -> nat {
        self.last_refill_ms as nat
    }

    /// How many calls of high priority wait.
    pub closed spec fn waiting(&self) -> nat {
        self.high_waiters as nat
    }

    /// When the rate last recovered a step or fell: since then the run is unthrottled.
    pub closed spec fn last_recovery(&self) -> nat {
        self.last_recovery_ms as nat
    }

    /// The bucket never holds more than the burst.
    #[verifier::type_invariant]
    closed spec fn within_burst(&self) -> bool {
        self.tokens_milli <= MAX_BURST_MILLI
    }

    /// A full bucket at time 0.
    pub fn new() -> (bucket: Self)
        ensures
            bucket.tokens() == MAX_BURST_MILLI,
            bucket.last_refill() == 0,
            bucket.waiting() == 0,
            bucket.last_recovery() == 0,
    {
        TokenBucket {
            tokens_milli: MAX_BURST_MILLI,
            last_refill_ms: 0,
            high_waiters: 0,
            last_recovery_ms: 0,
        }
    }

    /// Available tokens in thousandths.
    pub fn tokens_milli(&self) -> (n: u64)
        ensures
            n == self.tokens(),
            n <= MAX_BURST_MILLI,
    {
        proof {
            use_type_invariant(self);
        }
        self.tokens_milli
    }

    /// Sets the clock to `now_ms`. Returns the milliseconds for which tokens are due,
    /// which is 0 where the clock has not advanced.
    pub fn advance(&mut self, now_ms: u64) -> (elapsed_ms: u64)
        ensures
            elapsed_ms == if now_ms > old(self).last_refill() {
                now_ms - old(self).last_refill()
            } else {
                0
            },
            final(self).last_refill() == now_ms,
            final(self).last_recovery() == old(self).last_recovery(),
            final(self).tokens() == old(self).tokens(),
            final(self).waiting() == old(self).waiting(),
    {
        proof {
            use_type_invariant(&*self);
        }
        let last: u64 = self.last_refill_ms;
        self.last_refill_ms = now_ms;
        if now_ms > last {
            now_ms - last
        } else {
            0
        }
    }

    /// Puts tokens in: `level_milli` is what the bucket would hold without a limit.
    pub fn fill_to(&mut self, level_milli: u64)
        ensures
            final(self).tokens() == if level_milli <= MAX_BURST_MILLI {
                level_milli
            } else {
                MAX_BURST_MILLI
            },
            final(self).last_refill() == old(self).last_refill(),
            final(self).last_recovery() == old(self).last_recovery(),
            final(self).waiting() == old(self).waiting(),
    {
        proof {
            use_type_invariant(&*self);
        }
        self.tokens_milli = if level_milli <= MAX_BURST_MILLI {
            level_milli
        } else {
            MAX_BURST_MILLI
        };
    }

    /// Takes one token out, if there is one.
    pub fn try_take(&mut self) -> (taken: bool)
        ensures
            taken == (old(self).tokens() >= TOKEN_MILLI),
            final(self).tokens() == if taken {
                old(self).tokens() - TOKEN_MILLI
            } else {
                old(self).tokens() as int
            },
            final(self).last_refill() == old(self).last_refill(),
            final(self).last_recovery() == old(self).last_recovery(),
            final(self).waiting() == old(self).waiting(),
    {
        proof {
            use_type_invariant(&*self);
        }
        if self.tokens_milli < TOKEN_MILLI {
            return false;
        }
        self.tokens_milli = self.tokens_milli - TOKEN_MILLI;
        true
    }

    /// A call was throttled: empties the bucket, so that the lowered rate takes effect at once, and
    /// starts the time of unthrottled running anew.
    pub fn throttled(&mut self, now_ms: u64)
        ensures
            final(self).tokens() == 0,
            final(self).last_recovery() == now_ms,
            final(self).last_refill() == old(self).last_refill(),
            final(self).waiting() == old(self).waiting(),
    {
        proof {
            use_type_invariant(&*self);
        }
        self.tokens_milli = 0;
        self.last_recovery_ms = now_ms;
    }

    /// Whether the rate recovers a step: after so many milliseconds without a throttle and without
    /// another step. If it does, the time starts anew.
    pub fn recover(&mut self, now_ms: u64) -> (due: bool)
        ensures
            due == (now_ms >= old(self).last_recovery() + RECOVER_INTERVAL_MS),
            final(self).last_recovery() == if due {
                now_ms as nat
            } else {
                old(self).last_recovery()
            },
            final(self).tokens() == old(self).tokens(),
            final(self).last_refill() == old(self).last_refill(),
            final(self).waiting() == old(self).waiting(),
    {
        proof {
            use_type_invariant(&*self);
        }
        let due: bool = now_ms >= self.last_recovery_ms && now_ms - self.last_recovery_ms
            >= RECOVER_INTERVAL_MS;
        if due {
            self.last_recovery_ms = now_ms;
        }
        due
    }

    /// A call starts to wait. Only calls of high priority are counted.
    pub fn enter(&mut self, prio: Priority)
        requires
            old(self).waiting() < u64::MAX,
        ensures
            final(self).waiting() == old(self).waiting() + if prio == Priority::High {
                1int
            } else {
                0
            },
            final(self).tokens() == old(self).tokens(),
            final(self).last_refill() == old(self).last_refill(),
            final(self).last_recovery() == old(self).last_recovery(),
    {
        proof {
            use_type_invariant(&*self);
        }
        if prio == Priority::High {
            self.high_waiters = self.high_waiters + 1;
        }
    }

    /// How many calls of high priority wait.
    pub fn high_waiters(&self) -> (n: u64)
        ensures
            n == self.waiting(),
    {
        self.high_waiters
    }

    /// Whether a call has to stand back before it even tries: one of low priority, as
    /// long as one of high priority waits.
    pub fn defers(&self, prio: Priority) -> (d: bool)
        ensures
            d == (prio == Priority::Low && self.waiting() > 0),
    {
        prio == Priority::Low && self.high_waiters > 0
    }

    /// One try of a waiting call that does not stand back. A call of high priority that
    /// is paid for no longer waits and wakes those who stood back.
    pub fn try_grant(&mut self, prio: Priority) -> (grant: Grant)
        requires
            prio == Priority::High ==> old(self).waiting() > 0,
        ensures
            old(self).tokens() < TOKEN_MILLI ==> grant == Grant::Empty && final(self).tokens()
                == old(self).tokens() && final(self).waiting() == old(self).waiting(),
            old(self).tokens() >= TOKEN_MILLI ==> {
                &&& grant == Grant::Granted { wake: prio == Priority::High }
                &&& final(self).tokens() == old(self).tokens() - TOKEN_MILLI
                &&& final(self).waiting() == old(self).waiting() - if prio == Priority::High {
                    1int
                } else {
                    0
                }
            },
            final(self).last_refill() == old(self).last_refill(),
            final(self).last_recovery() == old(self).last_recovery(),
    {
        if !self.try_take() {
            return Grant::Empty;
        }
        proof {
            use_type_invariant(&*self);
        }
        if prio == Priority::High {
            self.high_waiters = self.high_waiters - 1;
            return Grant::Granted { wake: true };
        }
        Grant::Granted { wake: false }
    }
}

impl Default for TokenBucket {
    fn default() -> (bucket: Self)
        ensures
            bucket.tokens() == MAX_BURST_MILLI,
            bucket.last_refill() == 0,
            bucket.waiting() == 0,
            bucket.last_recovery() == 0,
    {
        TokenBucket::new()
    }
}

} // verus!

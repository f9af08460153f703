//! Bounded retries for a client's route thread.
//!
//! A route thread that receives instructions before its session is ready
//! retries them. The budget bounds how often: once it is used up, the caller
//! is to give up and disconnect the client. The pause between retries grows
//! with their number up to a cap, so that a short race at startup is over
//! quickly while a session that never comes up costs bounded time.

use std::time::Duration;
use vstd::prelude::*;

verus! {

/// Retries before the default budget is used up. Its pauses, from
/// `DEFAULT_BASE_BACKOFF_MS` to `DEFAULT_MAX_BACKOFF_MS`, add up to between 25
/// and 30 seconds: more than a slow start of a session takes, and a hard wall
/// for one that never comes up.
pub const DEFAULT_MAX_ATTEMPTS: u32 = 300;

pub const DEFAULT_LOG_EVERY: u32 = 50;

pub const DEFAULT_BASE_BACKOFF_MS: u64 = 5;

pub const DEFAULT_MAX_BACKOFF_MS: u64 = 100;

/// The span of time of the given number of milliseconds.
pub uninterp spec fn duration_of_millis(millis: u64) -> Duration;

/// `Duration::from_millis` gives the span of that many milliseconds; it is
/// named, since a `Duration` shows nothing of what it holds.
pub assume_specification[ Duration::from_millis ](millis: u64) -> (d: Duration)
    ensures
        d == duration_of_millis(millis),
;

/// How many retries a client has made in a row, and what it may make.
#[derive(Debug)]
pub struct RetryBudget {
    pub consecutive_attempts: u32,
    pub max_attempts: u32,
    pub log_every: u32,
    pub base_backoff_ms: u64,
    pub max_backoff_ms: u64,
}

/// The contents of a `RetryBudget`.
pub struct RetryBudgetView {
    pub attempts: u32,
    pub max_attempts: u32,
    pub log_every: u32,
    pub base_ms: u64,
    pub cap_ms: u64,
}

impl View for RetryBudget {
    type V = RetryBudgetView;

    open spec fn view(&self) -> RetryBudgetView {
        RetryBudgetView {
            attempts: self.consecutive_attempts,
            max_attempts: self.max_attempts,
            log_every: self.log_every,
            base_ms: self.base_backoff_ms,
            cap_ms: self.max_backoff_ms,
        }
    }
}

impl RetryBudgetView {
    /// The cap of the pauses is no lower than their base.
    pub open spec fn wf(self) -> bool {
        self.base_ms <= self.cap_ms
    }

    /// The budget after one more retry. The count stops at its largest value.
    pub open spec fn after_attempt(self) -> RetryBudgetView {
        RetryBudgetView {
            attempts: if self.attempts < u32::MAX {
                (self.attempts + 1) as u32
            } else {
                u32::MAX
            },
            ..self
        }
    }

    /// The budget after `n` more retries.
    pub open spec fn after_attempts(self, n: nat) -> RetryBudgetView
        decreases n,
    {
        if n == 0 {
            self
        } else {
            self.after_attempts((n - 1) as nat).after_attempt()
        }
    }

    /// Whether the retries made so far are within the budget.
    pub open spec fn within(self) -> bool {
        self.attempts <= self.max_attempts
    }

    /// The pause before the next retry, in milliseconds: the base times the
    /// number of retries, at least once and at most up to the cap.
    pub open spec fn pause_ms(self) -> int {
        let factor = if self.attempts == 0 {
            1
        } else {
            self.attempts as int
        };
        if self.base_ms * factor < self.cap_ms {
            self.base_ms * factor
        } else {
            self.cap_ms as int
        }
    }

    /// The pauses of `n` retries in a row, added up.
    pub open spec fn total_pause_ms(self, n: nat) -> int
        decreases n,
    {
        if n == 0 {
            0
        } else {
            self.total_pause_ms((n - 1) as nat) + self.after_attempts(n).pause_ms()
        }
    }
}

/// The untouched default budget.
pub open spec fn default_budget() -> RetryBudgetView {
    RetryBudgetView {
        attempts: 0,
        max_attempts: DEFAULT_MAX_ATTEMPTS,
        log_every: DEFAULT_LOG_EVERY,
        base_ms: DEFAULT_BASE_BACKOFF_MS,
        cap_ms: DEFAULT_MAX_BACKOFF_MS,
    }
}

impl Default for RetryBudget {
    fn default() -> (budget: Self)
        ensures
            budget@ == default_budget(),
    {
        Self::new(
            DEFAULT_MAX_ATTEMPTS,
            DEFAULT_LOG_EVERY,
            DEFAULT_BASE_BACKOFF_MS,
            DEFAULT_MAX_BACKOFF_MS,
        )
    }
}

impl Clone for RetryBudget {
    fn clone(&self) -> (budget: Self)
        ensures
            budget@ == self@,
    {
        RetryBudget {
            consecutive_attempts: self.consecutive_attempts,
            max_attempts: self.max_attempts,
            log_every: self.log_every,
            base_backoff_ms: self.base_backoff_ms,
            max_backoff_ms: self.max_backoff_ms,
        }
    }
}

impl RetryBudget {
    /// A budget that is untouched. A cap below the base is raised to the base.
    pub fn new(
        max_attempts: u32,
        log_every: u32,
        base_backoff_ms: u64,
        max_backoff_ms: u64,
    ) -> (budget: Self)
        ensures
            budget@.wf(),
            budget@ == (RetryBudgetView {
                attempts: 0,
                max_attempts,
                log_every,
                base_ms: base_backoff_ms,
                cap_ms: if max_backoff_ms < base_backoff_ms {
                    base_backoff_ms
                } else {
                    max_backoff_ms
                },
            }),
    {
        let cap: u64 = if max_backoff_ms < base_backoff_ms {
            base_backoff_ms
        } else {
            max_backoff_ms
        };
        Self {
            consecutive_attempts: 0,
            max_attempts,
            log_every,
            base_backoff_ms,
            max_backoff_ms: cap,
        }
    }

    /// Takes note of one retry. True while it is within the budget; false
    /// once the caller must give up.
    pub fn record_attempt(&mut self) -> (within: bool)
        ensures
            final(self)@ == old(self)@.after_attempt(),
            within == final(self)@.within(),
    {
        self.consecutive_attempts = self.consecutive_attempts.saturating_add(1);
        self.consecutive_attempts <= self.max_attempts
    }

    /// Starts the budget anew, after an instruction was delivered.
    pub fn reset(&mut self)
        ensures
            final(self)@ == (RetryBudgetView { attempts: 0, ..old(self)@ }),
    {
        self.consecutive_attempts = 0;
    }

    /// Whether the current retry deserves a log line: the first of a burst
    /// does, and each whose number is a multiple of `log_every`. With
    /// `log_every` zero none does.
    pub fn should_log(&self) -> (log: bool)
        ensures
            log == (self@.log_every != 0 && (self@.attempts == 1 || self@.attempts as int
                % self@.log_every as int == 0)),
    {
        if self.log_every == 0 {
            return false;
        }
        self.consecutive_attempts == 1 || self.consecutive_attempts % self.log_every == 0
    }

    /// The pause before the next retry, in milliseconds.
    pub fn backoff_ms(&self) -> (ms: u64)
        ensures
            ms == self@.pause_ms(),
    {
        let factor: u64 = if self.consecutive_attempts == 0 {
            1
        } else {
            self.consecutive_attempts as u64
        };
        match self.base_backoff_ms.checked_mul(factor) {
            Some(ms) => {
                if ms < self.max_backoff_ms {
                    ms
                } else {
                    self.max_backoff_ms
                }
            },
            None => self.max_backoff_ms,
        }
    }

    /// The pause before the next retry.
    pub fn backoff(&self) -> (pause: Duration)
        ensures
            pause == duration_of_millis(self@.pause_ms() as u64),
    {
        Duration::from_millis(self.backoff_ms())
    }

    /// How many retries were made in a row.
    pub fn attempts(&self) -> (n: u32)
        ensures
            n == self@.attempts,
    {
        self.consecutive_attempts
    }

    /// How many retries in a row the budget admits.
    pub fn max_attempts(&self) -> (n: u32)
        ensures
            n == self@.max_attempts,
    {
        self.max_attempts
    }
}

proof fn lemma_attempts_count(budget: RetryBudgetView, n: nat)
    ensures
        budget.after_attempts(n).attempts == (if budget.attempts + n < u32::MAX {
            budget.attempts + n
        } else {
            u32::MAX as int
        }),
        budget.after_attempts(n) == (RetryBudgetView {
            attempts: budget.after_attempts(n).attempts,
            ..budget
        }),
    decreases n,
{
    if n > 0 {
        lemma_attempts_count(budget, (n - 1) as nat);
    }
}

/// An untouched budget admits exactly `max_attempts` retries in a row, and
/// stays used up after that. (A budget of `u32::MAX` is never used up, since
/// the count cannot pass it.)
pub proof fn budget_is_used_up_in_time(budget: RetryBudgetView, n: nat)
    requires
        budget.attempts == 0,
        budget.max_attempts < u32::MAX,
    ensures
        budget.after_attempts(n).within() <==> n <= budget.max_attempts,
{
    lemma_attempts_count(budget, n);
}

/// A reset budget is as good as an untouched one, whatever was retried before.
pub proof fn reset_restores_the_budget(budget: RetryBudgetView, n: nat)
    requires
        budget.attempts == 0,
    ensures
        (RetryBudgetView { attempts: 0, ..budget.after_attempts(n) }) == budget,
{
    lemma_attempts_count(budget, n);
}

/// Every pause lies between the base and the cap, and no retry waits less
/// than the one before it.
pub proof fn pauses_grow_up_to_the_cap(budget: RetryBudgetView)
    requires
        budget.wf(),
    ensures
        budget.base_ms <= budget.pause_ms() <= budget.cap_ms,
        budget.pause_ms() <= budget.after_attempt().pause_ms(),
        budget.attempts >= 1 && budget.base_ms * budget.attempts <= budget.cap_ms
            ==> budget.pause_ms() == budget.base_ms * budget.attempts,
{
    let a = budget.base_ms as int;
    let f = if budget.attempts == 0 {
        1
    } else {
        budget.attempts as int
    };
    let g = if budget.after_attempt().attempts == 0 {
        1
    } else {
        budget.after_attempt().attempts as int
    };
    assert(a <= a * f <= a * g) by (nonlinear_arith)
        requires
            a >= 0,
            1 <= f <= g,
    ;
}

/// The pauses of `n` retries in a row take at most `n` times the cap: a
/// client of a session that never comes up is given up in bounded time.
pub proof fn total_pause_is_bounded(budget: RetryBudgetView, n: nat)
    requires
        budget.wf(),
    ensures
        n * budget.base_ms <= budget.total_pause_ms(n) <= n * budget.cap_ms,
    decreases n,
{
    if n > 0 {
        total_pause_is_bounded(budget, (n - 1) as nat);
        lemma_attempts_count(budget, n);
        pauses_grow_up_to_the_cap(budget.after_attempts(n));
        let (b, c) = (budget.base_ms as int, budget.cap_ms as int);
        assert(n * b == (n - 1) * b + b) by (nonlinear_arith);
        assert(n * c == (n - 1) * c + c) by (nonlinear_arith);
    }
}

proof fn lemma_default_pauses(n: nat)
    requires
        n <= DEFAULT_MAX_ATTEMPTS,
    ensures
        n <= 20 ==> 2 * default_budget().total_pause_ms(n) == 5 * (n * (n + 1)),
        n >= 20 ==> default_budget().total_pause_ms(n) == 1050 + 100 * (n - 20),
    decreases n,
{
    if n > 0 {
        let m = (n - 1) as nat;
        let after = default_budget().after_attempts(n);
        lemma_default_pauses(m);
        lemma_attempts_count(default_budget(), n);
        assert(after.base_ms * (after.attempts as int) == 5 * n) by (nonlinear_arith)
            requires
                after.base_ms == 5,
                after.attempts == n,
        ;
        assert(n * (n + 1) == m * (m + 1) + 2 * n) by (nonlinear_arith)
            requires
                n == m + 1,
        ;
        assert(n == 20 ==> n * (n + 1) == 420) by (nonlinear_arith);
    } else {
        assert(n * (n + 1) == 0) by (nonlinear_arith)
            requires
                n == 0,
        ;
    }
}

/// A client that uses up the default budget has waited between 25 and 30
/// seconds.
pub proof fn default_budget_lasts_its_time()
    ensures
        25_000 <= default_budget().total_pause_ms(DEFAULT_MAX_ATTEMPTS as nat) <= 30_000,
{
    lemma_default_pauses(DEFAULT_MAX_ATTEMPTS as nat);
}

/// The pause is the base for the first retry and before it, twice the base for
/// the second, and so on up to the cap, which it never passes.
pub proof fn pause_is_proportional(budget: RetryBudgetView)
    requires
        budget.base_ms <= budget.cap_ms,
    ensures
        budget.attempts <= 1 ==> budget.pause_ms() == budget.base_ms,
        budget.base_ms * budget.attempts >= budget.cap_ms && budget.attempts >= 1
            ==> budget.pause_ms() == budget.cap_ms,
        budget.base_ms * budget.attempts <= budget.cap_ms && budget.attempts >= 1
            ==> budget.pause_ms() == budget.base_ms * budget.attempts,
{
    let base = budget.base_ms as int;
    assert(base * 1 == base) by (nonlinear_arith);
}

/// Each retry counts one, up to the largest count, and the budget holds as long as
/// the count is no more than it admits.
pub proof fn retries_are_counted(budget: RetryBudgetView)
    ensures
        budget.attempts < u32::MAX ==> budget.after_attempt().attempts == budget.attempts + 1,
        budget.attempts == u32::MAX ==> budget.after_attempt().attempts == u32::MAX,
        budget.after_attempt().max_attempts == budget.max_attempts,
        budget.after_attempt().log_every == budget.log_every,
        budget.after_attempt().base_ms == budget.base_ms,
        budget.after_attempt().cap_ms == budget.cap_ms,
        budget.within() <==> budget.attempts <= budget.max_attempts,
{
}

} // verus!

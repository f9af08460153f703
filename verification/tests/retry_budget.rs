use std::time::Duration;
use zellij_core::retry_budget::{RetryBudget, DEFAULT_MAX_BACKOFF_MS};

#[test]
fn record_attempt_returns_true_until_budget_exhausted() {
    let mut budget = RetryBudget::new(3, 1, 1, 10);
    assert!(budget.record_attempt(), "attempt 1 should fit");
    assert!(budget.record_attempt(), "attempt 2 should fit");
    assert!(budget.record_attempt(), "attempt 3 should fit");
    assert!(!budget.record_attempt(), "attempt 4 exceeds the budget");
    assert!(!budget.record_attempt(), "stays exhausted");
}

#[test]
fn reset_restores_full_budget() {
    let mut budget = RetryBudget::new(2, 1, 1, 10);
    assert!(budget.record_attempt());
    assert!(budget.record_attempt());
    assert!(!budget.record_attempt());
    budget.reset();
    assert_eq!(budget.attempts(), 0);
    assert!(budget.record_attempt(), "post-reset budget is fresh");
}

#[test]
fn should_log_fires_on_first_attempt_and_every_log_every_afterwards() {
    let mut budget = RetryBudget::new(100, 10, 1, 10);
    let mut logged = Vec::new();
    for _ in 0..25 {
        budget.record_attempt();
        if budget.should_log() {
            logged.push(budget.attempts());
        }
    }
    assert_eq!(logged, vec![1, 10, 20], "log on first attempt then every 10th");
}

#[test]
fn should_log_disabled_when_log_every_is_zero() {
    let mut budget = RetryBudget::new(10, 0, 1, 10);
    for _ in 0..5 {
        budget.record_attempt();
        assert!(!budget.should_log(), "log_every=0 silences all logging");
    }
}

#[test]
fn backoff_scales_linearly_and_caps() {
    let budget_factory = || RetryBudget::new(100, 1, 5, 50);

    let mut b = budget_factory();
    // pre-attempt backoff still returns the base interval so the
    // first sleep is sensible
    assert_eq!(b.backoff(), Duration::from_millis(5));

    b.record_attempt();
    assert_eq!(b.backoff(), Duration::from_millis(5), "attempt 1 = base");

    b.record_attempt();
    assert_eq!(b.backoff(), Duration::from_millis(10), "attempt 2 = 2× base");

    for _ in 0..20 {
        b.record_attempt();
    }
    assert_eq!(b.backoff(), Duration::from_millis(50), "attempts >> cap stay at cap");
}

#[test]
fn max_backoff_cannot_undercut_base() {
    // Guard against a misconfiguration where the cap is lower
    // than the base — the cap should be raised to the base,
    // never the other way around.
    let b = RetryBudget::new(10, 1, 20, 5);
    assert_eq!(b.backoff(), Duration::from_millis(20));
}

#[test]
fn defaults_bound_total_wait_in_seconds_not_forever() {
    // Sanity check: with defaults the total worst-case wait
    // before bailing is on the order of tens of seconds, not
    // hours. (Sum of capped backoffs, conservative bound.)
    let budget = RetryBudget::default();
    let worst_case_ms =
        u64::from(budget.max_attempts()) * DEFAULT_MAX_BACKOFF_MS;
    assert!(
        worst_case_ms < 60_000,
        "worst case {worst_case_ms}ms must stay under a minute"
    );
    assert!(
        worst_case_ms > 1_000,
        "worst case {worst_case_ms}ms must give startup races real headroom"
    );
}

#[test]
fn record_attempt_does_not_panic_at_u32_max() {
    // saturating_add prevents wraparound at attempt = u32::MAX
    // even if a caller forgets to bail when record_attempt returns false.
    let mut b = RetryBudget::new(10, 0, 5, 50);
    b.consecutive_attempts = u32::MAX - 1;
    assert!(!b.record_attempt(), "already over budget");
    assert!(!b.record_attempt(), "saturated, still over budget, no panic");
    assert_eq!(b.attempts(), u32::MAX);
}

#[test]
fn backoff_multiplication_does_not_panic_with_large_base() {
    // saturating_mul guards against u64 overflow when a bad
    // config combines a huge base with a high attempt count.
    let mut b = RetryBudget::new(u32::MAX, 0, u64::MAX / 2, u64::MAX);
    b.consecutive_attempts = u32::MAX;
    // The point is: this call must not panic. Resulting Duration
    // is some saturated value, but the route loop will have
    // bailed via record_attempt long before reaching attempts
    // this high.
    let _ = b.backoff();
}

#[test]
fn default_pauses_add_up() {
    let mut budget = RetryBudget::default();
    let mut total = Duration::from_millis(0);
    while budget.record_attempt() {
        total += budget.backoff();
    }
    assert_eq!(total, Duration::from_millis(29_050));
    assert!(total >= Duration::from_secs(25) && total <= Duration::from_secs(30));
    assert_eq!(budget.attempts(), 301);
    assert_eq!(budget.max_attempts(), 300);
}

#[test]
fn backoff_is_the_same_span_in_milliseconds() {
    let mut budget = RetryBudget::new(u32::MAX, 0, u64::MAX / 2, u64::MAX);
    budget.consecutive_attempts = u32::MAX;
    assert_eq!(budget.backoff_ms(), u64::MAX);
    assert_eq!(budget.backoff(), Duration::from_millis(u64::MAX));
    budget.consecutive_attempts = 2;
    assert_eq!(budget.backoff_ms(), u64::MAX - 1);
}

#[test]
fn largest_budget_is_never_used_up() {
    let mut budget = RetryBudget::new(u32::MAX, 1, 1, 1);
    budget.consecutive_attempts = u32::MAX;
    assert!(budget.record_attempt());
    assert!(!RetryBudget::new(0, 1, 1, 1).record_attempt());
}

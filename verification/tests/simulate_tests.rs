use ratetrace::config::RateLimit;
use ratetrace::simulate::{simulate, RequestOutcome, TokenBucket};
use std::time::Duration;

/// Reads the rules in `src`, with each number text read as an `f64`.
fn parse_rules(src: &str) -> Result<Vec<ratetrace::config::RateLimit>, ratetrace::diagnostics::Diagnostic> {
    ratetrace::config::parse_rules(src, &number_table(src))
}

fn number_table(src: &str) -> Vec<(String, ratetrace::config::NumberValue)> {
    ratetrace::config::number_texts(src)
        .into_iter()
        .map(|t| {
            let value: f64 = t.parse().unwrap();
            let whole = if value.fract() != 0.0 || value < 0.0 || value > u32::MAX as f64 {
                None
            } else {
                Some(value as u32)
            };
            let shown = format!("{value}");
            (t, ratetrace::config::NumberValue { whole, shown })
        })
        .collect()
}


fn rule(src: &str, name: &str) -> RateLimit {
    parse_rules(src)
        .unwrap()
        .into_iter()
        .find(|r| r.name == name)
        .unwrap()
}

fn nanos(d: Duration) -> u128 {
    d.as_nanos()
}

fn tokens(o: &RequestOutcome) -> f64 {
    o.tokens_remaining_units as f64 / o.units_per_token as f64
}

#[test]
fn burst_allows_immediate_spike() {
    let r = rule("rule x { rate = 1/sec burst = 3 }", "x");
    let times = vec![nanos(Duration::ZERO); 4];
    let outcomes = simulate(&r, &times);
    // capacity = count + burst = 1 + 3 = 4, so all four at t=0 fit.
    assert!(outcomes.iter().all(|o| o.allowed));
}

#[test]
fn exceeding_capacity_throttles() {
    let r = rule("rule x { rate = 1/sec burst = 0 }", "x");
    let times = vec![nanos(Duration::ZERO), nanos(Duration::ZERO)];
    let outcomes = simulate(&r, &times);
    assert!(outcomes[0].allowed);
    assert!(!outcomes[1].allowed);
}

#[test]
fn bucket_refills_over_time() {
    let r = rule("rule x { rate = 1/sec burst = 0 }", "x");
    let times = vec![nanos(Duration::ZERO), nanos(Duration::from_secs(1))];
    let outcomes = simulate(&r, &times);
    assert!(outcomes[0].allowed);
    assert!(outcomes[1].allowed);
}

#[test]
fn partial_refill_is_not_enough_for_a_full_token() {
    let r = rule("rule x { rate = 1/sec burst = 0 }", "x");
    let times = vec![
        nanos(Duration::ZERO),
        nanos(Duration::from_millis(500)),
        nanos(Duration::from_millis(600)),
    ];
    let outcomes = simulate(&r, &times);
    assert!(outcomes[0].allowed);
    assert!(!outcomes[1].allowed);
    assert!(!outcomes[2].allowed);
}

#[test]
fn refill_never_exceeds_capacity() {
    let r = rule("rule x { rate = 1/sec burst = 2 }", "x");
    let mut bucket = TokenBucket::new(&r);
    let idle = bucket.admit_at(nanos(Duration::from_secs(1000)));
    assert!(idle.allowed);
    assert_eq!(tokens(&idle), 2.0); // capacity 3, minus the one just consumed
}

#[test]
fn spike_beyond_count_plus_burst_is_throttled() {
    // 3/min plus a burst of 1: four requests at once fit, the fifth does not.
    let r = rule("rule password_reset { rate = 3/min burst = 1 }", "password_reset");
    let outcomes = simulate(&r, &[0, 0, 0, 0, 0]);
    let allowed: Vec<bool> = outcomes.iter().map(|o| o.allowed).collect();
    assert_eq!(allowed, vec![true, true, true, true, false]);
    assert_eq!(tokens(&outcomes[3]), 0.0);
    assert_eq!(tokens(&outcomes[4]), 0.0);
}

#[test]
fn refill_is_proportional_to_elapsed_time() {
    // 3 per minute: a token every 20 seconds.
    let r = rule("rule x { rate = 3/min burst = 0 }", "x");
    let s = 1_000_000_000u128;
    let outcomes = simulate(&r, &[0, 0, 0, 0, 19 * s, 20 * s, 30 * s, 40 * s]);
    let allowed: Vec<bool> = outcomes.iter().map(|o| o.allowed).collect();
    assert_eq!(allowed, vec![true, true, true, false, false, true, false, true]);
    assert_eq!(outcomes[6].tokens_remaining_units, 30 * 3 * s - 20 * 3 * s);
    assert_eq!(outcomes[0].units_per_token, 60 * s);
}

#[test]
fn earlier_time_counts_as_current_position() {
    let r = rule("rule x { rate = 1/sec burst = 0 }", "x");
    let mut bucket = TokenBucket::new(&r);
    let s = 1_000_000_000u128;
    assert!(bucket.admit_at(5 * s).allowed);
    // a request from the past arrives at 5 s, where the bucket is empty
    assert!(!bucket.admit_at(2 * s).allowed);
    assert!(bucket.admit_at(6 * s).allowed);
}

#[test]
fn zero_rate_never_refills() {
    let r = rule("rule x { rate = 0/sec burst = 2 }", "x");
    let s = 1_000_000_000u128;
    let outcomes = simulate(&r, &[0, 0, 0, 1000 * s]);
    let allowed: Vec<bool> = outcomes.iter().map(|o| o.allowed).collect();
    assert_eq!(allowed, vec![true, true, false, false]);
}

#[test]
fn hour_rates_use_exact_amounts() {
    let r = rule("rule x { rate = 100/hour burst = 0 }", "x");
    let s = 1_000_000_000u128;
    let mut times = vec![0u128; 100];
    times.push(35 * s);
    times.push(36 * s);
    let outcomes = simulate(&r, &times);
    assert!(outcomes[..100].iter().all(|o| o.allowed));
    assert!(!outcomes[100].allowed);
    assert!(outcomes[101].allowed);
}

#[test]
fn zero_period_refills_at_once() {
    let rule = RateLimit { name: "z".to_string(), name_offset: 0, count: 2, period_secs: 0, burst: 1 };
    let outcomes = simulate(&rule, &[0, 0, 0, 5]);
    for o in &outcomes {
        assert!(o.allowed);
        assert_eq!(tokens(o), 2.0);
    }
    let empty = RateLimit { name: "e".to_string(), name_offset: 0, count: 0, period_secs: 0, burst: 0 };
    assert!(simulate(&empty, &[0, 1]).iter().all(|o| !o.allowed));
}

use soldr::retry::{backoff, backoff_with_jitter, BACKOFF_CAP_MS};

#[test]
fn test_backoff() {
    let backoff = backoff(19);

    assert!(backoff >= 2851203);
    assert!(backoff < 2852203);
}

#[test]
fn test_backoff_max() {
    let backoff = backoff(20);

    assert!(backoff >= 2851203);
    assert!(backoff < 2852203);
}

#[test]
fn backoff_exact_values_without_jitter() {
    assert_eq!(backoff_with_jitter(0, 0), 1000);
    assert_eq!(backoff_with_jitter(1, 0), 1520);
    assert_eq!(backoff_with_jitter(2, 0), 2310);
    assert_eq!(backoff_with_jitter(3, 0), 3512);
    assert_eq!(backoff_with_jitter(10, 0), 65832);
    assert_eq!(backoff_with_jitter(19, 0), 2851203);
}

#[test]
fn backoff_adds_jitter_below_cutoff() {
    assert_eq!(backoff_with_jitter(2, 999), 3309);
    assert_eq!(backoff_with_jitter(19, 999), 2852202);
}

#[test]
fn backoff_past_cutoff_is_cap_without_jitter() {
    assert_eq!(backoff_with_jitter(20, 500), BACKOFF_CAP_MS);
    assert_eq!(backoff_with_jitter(i32::MAX, 999), 2851203);
}

#[test]
fn backoff_for_negative_counts_shrinks() {
    assert_eq!(backoff_with_jitter(-1, 0), 658);
    assert_eq!(backoff_with_jitter(-19, 0), 0);
    assert_eq!(backoff_with_jitter(-20, 0), 0);
    assert_eq!(backoff_with_jitter(i32::MIN, 7), 7);
}

#[test]
fn backoff_is_monotonic_up_to_jitter() {
    let mut previous = backoff_with_jitter(-25, 0);
    for n in -24..30 {
        let current = backoff_with_jitter(n, 0);
        assert!(current >= previous);
        assert!(current <= 2852203);
        previous = current;
    }
}

#[test]
fn backoff_draws_jitter_in_range() {
    for _ in 0..50 {
        let d = backoff(2);
        assert!(d >= 2310 && d < 3310);
    }
}

#[test]
fn retry_delay_stops_after_nineteen_attempts() {
    assert_eq!(soldr::retry::retry_delay(20), None);
    assert_eq!(soldr::retry::retry_delay(u64::MAX), None);
    let d = soldr::retry::retry_delay(19).unwrap();
    assert!(d >= 2851203 && d < 2852203);
    let d = soldr::retry::retry_delay(0).unwrap();
    assert!(d >= 1000 && d < 2000);
}

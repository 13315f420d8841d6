use speedy::{compute_rates, PrevSample};

#[test]
fn first_observation_yields_zero_rates() {
    assert_eq!(compute_rates(None, 123_456, 789_000, 5_000), (0, 0));
}

#[test]
fn steady_increase_gives_delta_over_elapsed() {
    let prev = PrevSample { rx: 1_000, tx: 2_000, at_ms: 1_000 };
    // One second later: 2000 more bytes received, 500 more transmitted.
    let rates = compute_rates(Some(prev), 3_000, 2_500, 2_000);
    assert_eq!(rates, (2_000, 500));
}

#[test]
fn half_second_interval_doubles_the_rate() {
    let prev = PrevSample { rx: 0, tx: 0, at_ms: 1_000 };
    let rates = compute_rates(Some(prev), 512, 1_024, 1_500);
    assert_eq!(rates, (1_024, 2_048));
}

#[test]
fn counter_reset_clamps_to_zero() {
    let prev = PrevSample { rx: 10_000, tx: 5_000, at_ms: 1_000 };
    // Receive counter regressed (reset); transmit advanced.
    let rates = compute_rates(Some(prev), 400, 6_000, 2_000);
    assert_eq!(rates, (0, 1_000));
}

#[test]
fn same_instant_yields_zero_rates() {
    let prev = PrevSample { rx: 1_000, tx: 1_000, at_ms: 2_000 };
    assert_eq!(compute_rates(Some(prev), 9_999, 9_999, 2_000), (0, 0));
}

#[test]
fn clock_moving_backwards_yields_zero_rates() {
    let prev = PrevSample { rx: 1_000, tx: 1_000, at_ms: 2_000 };
    assert_eq!(compute_rates(Some(prev), 9_999, 9_999, 1_500), (0, 0));
}

#[test]
fn sub_byte_per_second_truncates_to_zero() {
    let prev = PrevSample { rx: 0, tx: 0, at_ms: 0 };
    // One byte over three seconds: less than a byte per second.
    assert_eq!(compute_rates(Some(prev), 1, 1, 3_000), (0, 0));
}

#[test]
fn enormous_delta_over_one_millisecond_saturates() {
    let prev = PrevSample { rx: 0, tx: 0, at_ms: 0 };
    let rates = compute_rates(Some(prev), u64::MAX, 0, 1);
    assert_eq!(rates, (u64::MAX, 0));
}

use speedy::{NetworkMonitor, RawCounterEntry};

fn entry(name: &str, rx: u64, tx: u64) -> RawCounterEntry {
    RawCounterEntry {
        name: name.to_string(),
        friendly_name: name.to_string(),
        bytes_received: rx,
        bytes_transmitted: tx,
    }
}

#[test]
fn first_poll_reports_zero_rates() {
    let mut monitor = NetworkMonitor::new();
    let out = monitor.refresh_with(&vec![entry("eth0", 5_000, 2_000)], 1_000, false);
    assert_eq!(out.len(), 1);
    assert_eq!(out[0].download_speed, 0);
    assert_eq!(out[0].upload_speed, 0);
    assert_eq!(out[0].bytes_received, 5_000);
    assert_eq!(out[0].bytes_transmitted, 2_000);
}

#[test]
fn second_poll_reports_delta_over_elapsed() {
    let mut monitor = NetworkMonitor::new();
    monitor.refresh_with(&vec![entry("eth0", 5_000, 2_000)], 1_000, false);
    let out = monitor.refresh_with(&vec![entry("eth0", 7_048, 2_512)], 2_000, false);
    assert_eq!(out.len(), 1);
    assert_eq!(out[0].download_speed, 2_048);
    assert_eq!(out[0].upload_speed, 512);
}

#[test]
fn poll_at_the_same_instant_reports_zero_rates() {
    let mut monitor = NetworkMonitor::new();
    monitor.refresh_with(&vec![entry("eth0", 5_000, 2_000)], 1_000, false);
    let out = monitor.refresh_with(&vec![entry("eth0", 9_000, 9_000)], 1_000, false);
    assert_eq!(out[0].download_speed, 0);
    assert_eq!(out[0].upload_speed, 0);
}

#[test]
fn counter_reset_between_polls_reports_zero_for_that_direction() {
    let mut monitor = NetworkMonitor::new();
    monitor.refresh_with(&vec![entry("eth0", 5_000, 2_000)], 1_000, false);
    let out = monitor.refresh_with(&vec![entry("eth0", 100, 3_000)], 2_000, false);
    assert_eq!(out[0].download_speed, 0);
    assert_eq!(out[0].upload_speed, 1_000);
}

#[test]
fn snapshot_is_sorted_by_name_whatever_the_input_order() {
    let mut monitor = NetworkMonitor::new();
    let out = monitor.refresh_with(
        &vec![entry("wlan0", 1, 1), entry("enp3s0", 2, 2), entry("tailscale0", 3, 3)],
        1_000,
        true,
    );
    let names: Vec<&str> = out.iter().map(|s| s.name.as_str()).collect();
    assert_eq!(names, vec!["enp3s0", "tailscale0", "wlan0"]);
}

#[test]
fn an_interface_appearing_later_starts_at_zero_rate() {
    let mut monitor = NetworkMonitor::new();
    monitor.refresh_with(&vec![entry("eth0", 100, 100)], 1_000, false);
    let out = monitor.refresh_with(
        &vec![entry("eth0", 200, 200), entry("wlan0", 999, 999)],
        2_000,
        false,
    );
    assert_eq!(out.len(), 2);
    assert_eq!(out[0].name, "eth0");
    assert_eq!(out[0].download_speed, 100);
    assert_eq!(out[1].name, "wlan0");
    assert_eq!(out[1].download_speed, 0);
}

#[test]
fn loopback_is_dropped_from_the_snapshot() {
    let mut monitor = NetworkMonitor::new();
    let out = monitor.refresh_with(
        &vec![entry("lo", 9, 9), entry("Loopback Pseudo-Interface 1", 9, 9), entry("eth0", 1, 1)],
        1_000,
        true,
    );
    assert_eq!(out.len(), 1);
    assert_eq!(out[0].name, "eth0");
}

#[test]
fn activity_follows_cumulative_traffic() {
    let mut monitor = NetworkMonitor::new();
    let out = monitor.refresh_with(
        &vec![entry("idle0", 0, 0), entry("busy0", 1, 0)],
        1_000,
        false,
    );
    assert_eq!(out[0].name, "busy0");
    assert!(out[0].is_active);
    assert_eq!(out[1].name, "idle0");
    assert!(!out[1].is_active);
}

#[test]
fn empty_input_gives_an_empty_snapshot() {
    let mut monitor = NetworkMonitor::new();
    let out = monitor.refresh_with(&Vec::new(), 1_000, false);
    assert!(out.is_empty());
}

#[test]
fn reconciled_poll_prefers_platform_counters() {
    let mut monitor = NetworkMonitor::new();
    let generic = vec![entry("eth0", 10, 10), entry("wlan0", 5, 5)];
    let platform = vec![entry("eth0", 1_000, 2_000)];
    let out = monitor.refresh_reconciled(&generic, &platform, 1_000, false);
    assert_eq!(out.len(), 2);
    assert_eq!(out[0].name, "eth0");
    assert_eq!(out[0].bytes_received, 1_000);
    assert_eq!(out[0].bytes_transmitted, 2_000);
    assert_eq!(out[1].name, "wlan0");
    assert_eq!(out[1].bytes_received, 5);
}

#[test]
fn reconciled_poll_with_empty_platform_table_keeps_generic_counters() {
    let mut monitor = NetworkMonitor::new();
    let generic = vec![entry("eth0", 10, 20)];
    let out = monitor.refresh_reconciled(&generic, &Vec::new(), 1_000, false);
    assert_eq!(out.len(), 1);
    assert_eq!(out[0].bytes_received, 10);
    assert_eq!(out[0].bytes_transmitted, 20);
}

#[test]
fn live_refresh_is_sorted_and_free_of_loopback_duplicates() {
    let mut monitor = NetworkMonitor::new();
    let out = monitor.refresh(false);
    for w in out.windows(2) {
        assert!(w[0].name < w[1].name);
    }
    for s in &out {
        assert!(!s.name.contains("Loopback"));
        assert_ne!(s.name, "lo");
    }
}

use speedy::{merge, RawCounterEntry};

fn entry(name: &str, rx: u64, tx: u64) -> RawCounterEntry {
    RawCounterEntry {
        name: name.to_string(),
        friendly_name: name.to_string(),
        bytes_received: rx,
        bytes_transmitted: tx,
    }
}

#[test]
fn exact_name_match_prefers_platform_counters() {
    let generic = vec![entry("Ethernet", 10, 20)];
    let platform = vec![entry("Ethernet", 1_000, 2_000)];
    let merged = merge(&generic, &platform);
    assert_eq!(merged.len(), 1);
    assert_eq!(merged[0].name, "Ethernet");
    assert_eq!(merged[0].bytes_received, 1_000);
    assert_eq!(merged[0].bytes_transmitted, 2_000);
}

#[test]
fn substring_containment_matches_in_either_direction() {
    // Platform name contained in the generic name.
    let generic = vec![entry("Ethernet 2", 10, 20)];
    let platform = vec![entry("Ethernet", 500, 600)];
    let merged = merge(&generic, &platform);
    assert_eq!(merged[0].bytes_received, 500);

    // Generic name contained in the platform name.
    let generic = vec![entry("eth0", 10, 20)];
    let platform = vec![entry("eth0 (kernel)", 700, 800)];
    let merged = merge(&generic, &platform);
    assert_eq!(merged[0].bytes_transmitted, 800);
}

#[test]
fn exact_match_wins_over_an_earlier_substring_match() {
    let generic = vec![entry("Ethernet", 10, 20)];
    let platform = vec![entry("Ethernet 2", 111, 222), entry("Ethernet", 333, 444)];
    let merged = merge(&generic, &platform);
    assert_eq!(merged[0].bytes_received, 333);
    assert_eq!(merged[0].bytes_transmitted, 444);
}

#[test]
fn no_match_keeps_generic_counters() {
    let generic = vec![entry("wlan0", 10, 20)];
    let platform = vec![entry("Ethernet", 1_000, 2_000)];
    let merged = merge(&generic, &platform);
    assert_eq!(merged[0].bytes_received, 10);
    assert_eq!(merged[0].bytes_transmitted, 20);
}

#[test]
fn every_generic_interface_keeps_its_row() {
    let generic = vec![entry("a0", 1, 1), entry("b0", 2, 2), entry("c0", 3, 3)];
    let platform = vec![entry("b0", 20, 20)];
    let merged = merge(&generic, &platform);
    assert_eq!(merged.len(), 3);
    assert_eq!(merged[0].bytes_received, 1);
    assert_eq!(merged[1].bytes_received, 20);
    assert_eq!(merged[2].bytes_received, 3);
}

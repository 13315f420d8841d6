use speedy::{
    count_connections, find_likely_interface, get_network_interface_stats, windows_stats_from,
    RawCounterEntry, SocketObservation,
};

fn entry(name: &str, rx: u64, tx: u64) -> RawCounterEntry {
    RawCounterEntry {
        name: name.to_string(),
        friendly_name: name.to_string(),
        bytes_received: rx,
        bytes_transmitted: tx,
    }
}

fn sock(loopback: bool, unspecified: bool, ipv4: bool) -> SocketObservation {
    SocketObservation { loopback, unspecified, ipv4 }
}

#[test]
fn find_likely_interface_returns_the_first_containing_name() {
    let names = vec!["lo".to_string(), "Ethernet 1".to_string(), "Ethernet 2".to_string()];
    assert_eq!(find_likely_interface(&names, "Ethernet"), Some(1));
    assert_eq!(find_likely_interface(&names, "Wi-Fi"), None);
}

#[test]
fn counted_sockets_are_attributed_to_the_ethernet_interface_first() {
    let names = vec!["wlan0".to_string(), "Ethernet".to_string()];
    let socks = vec![sock(false, false, true), sock(false, false, false)];
    assert_eq!(count_connections(&names, &socks), vec![0, 2]);
}

#[test]
fn loopback_and_unspecified_sockets_are_not_counted() {
    let names = vec!["Ethernet".to_string()];
    let socks = vec![sock(true, false, true), sock(false, true, true), sock(false, false, true)];
    assert_eq!(count_connections(&names, &socks), vec![1]);
}

#[test]
fn ipv4_sockets_fall_back_to_kernel_style_names() {
    let names = vec!["br0".to_string(), "eth0".to_string()];
    let socks = vec![sock(false, false, true)];
    assert_eq!(count_connections(&names, &socks), vec![0, 1]);
}

#[test]
fn ipv6_sockets_have_no_kernel_style_fallback() {
    let names = vec!["eth0".to_string(), "wlan0".to_string()];
    let socks = vec![sock(false, false, false)];
    assert_eq!(count_connections(&names, &socks), vec![0, 0]);
}

#[test]
fn wlan_is_the_last_ipv4_fallback() {
    let names = vec!["br0".to_string(), "wlan0".to_string()];
    let socks = vec![sock(false, false, true), sock(false, false, true)];
    assert_eq!(count_connections(&names, &socks), vec![0, 2]);
}

#[test]
fn stats_skip_loopback_and_clean_names() {
    let entries = vec![
        entry("Loopback Pseudo-Interface 1", 9, 9),
        entry("Ethernet-QoS Packet Scheduler-0000", 5, 6),
    ];
    let counts = vec![0, 0];
    let out = windows_stats_from(&entries, &counts);
    assert_eq!(out.len(), 1);
    assert_eq!(out[0].name, "Ethernet");
    assert_eq!(out[0].friendly_name, "Ethernet");
    assert_eq!(out[0].bytes_received, 5);
    assert_eq!(out[0].bytes_transmitted, 6);
}

#[test]
fn live_connections_make_an_idle_interface_active() {
    let entries = vec![entry("Ethernet", 0, 0), entry("wlan0", 0, 0)];
    let counts = vec![3, 0];
    let out = windows_stats_from(&entries, &counts);
    assert_eq!(out.len(), 2);
    assert!(out[0].is_active);
    assert!(!out[1].is_active);
}

#[test]
fn traffic_alone_makes_an_interface_active() {
    let entries = vec![entry("Ethernet", 0, 1)];
    let counts = vec![0];
    let out = windows_stats_from(&entries, &counts);
    assert!(out[0].is_active);
}

#[test]
fn the_enriched_poll_never_fails() {
    assert!(get_network_interface_stats(false).is_ok());
    assert!(get_network_interface_stats(true).is_ok());
}

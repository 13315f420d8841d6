use speedy::{classify, clean_interface_name, RawCounterEntry};

fn entry(name: &str, rx: u64, tx: u64) -> RawCounterEntry {
    RawCounterEntry {
        name: name.to_string(),
        friendly_name: name.to_string(),
        bytes_received: rx,
        bytes_transmitted: tx,
    }
}

#[test]
fn clean_strips_wfp_filter_suffix() {
    assert_eq!(
        clean_interface_name("Ethernet-WFP Native MAC Layer LightWeight Filter-0000"),
        "Ethernet"
    );
}

#[test]
fn clean_strips_qos_scheduler_suffix() {
    assert_eq!(clean_interface_name("Ethernet-QoS Packet Scheduler-0000"), "Ethernet");
}

#[test]
fn clean_strips_miniport_and_virtual_switch_suffixes() {
    assert_eq!(clean_interface_name("Wi-Fi - Miniport Adapter"), "Wi-Fi");
    assert_eq!(clean_interface_name("Ethernet - Virtual Switch"), "Ethernet");
}

#[test]
fn clean_trims_surrounding_whitespace() {
    assert_eq!(clean_interface_name("  eth0 \t"), "eth0");
}

#[test]
fn clean_trims_unicode_whitespace_like_the_standard_trim() {
    assert_eq!(clean_interface_name("\u{a0}x"), "x");
    assert_eq!(clean_interface_name("\u{3000}eth0\u{2009} "), "eth0");
    assert_eq!("\u{a0}x".trim(), clean_interface_name("\u{a0}x"));
}

#[test]
fn clean_leaves_ordinary_names_alone() {
    assert_eq!(clean_interface_name("enp3s0"), "enp3s0");
}

#[test]
fn duplicate_stack_layers_collapse_to_one_row() {
    let raw = vec![
        entry("Ethernet", 1000, 0),
        entry("Ethernet-WFP Native MAC Layer LightWeight Filter-0000", 1000, 0),
        entry("Ethernet-QoS Packet Scheduler-0000", 500, 0),
    ];
    let out = classify(&raw, false);
    assert_eq!(out.len(), 1);
    assert_eq!(out[0].name, "Ethernet");
    assert_eq!(out[0].bytes_received, 1000);
    assert_eq!(out[0].bytes_transmitted, 0);
}

#[test]
fn loopback_never_appears_with_either_policy() {
    let raw = vec![entry("Loopback Pseudo-Interface 1", 999, 999), entry("Ethernet", 5, 5)];
    for show_virtual in [false, true] {
        let out = classify(&raw, show_virtual);
        assert_eq!(out.len(), 1);
        assert_eq!(out[0].name, "Ethernet");
    }
}

#[test]
fn linux_loopback_name_is_dropped() {
    let raw = vec![entry("lo", 10, 10), entry("eth0", 1, 1)];
    let out = classify(&raw, true);
    assert_eq!(out.len(), 1);
    assert_eq!(out[0].name, "eth0");
}

#[test]
fn tunnel_pseudo_adapters_are_always_dropped() {
    let raw = vec![
        entry("Teredo Tunneling Pseudo-Interface", 1, 1),
        entry("isatap.{0A1B}", 1, 1),
        entry("6TO4 Adapter", 1, 1),
        entry("Ethernet", 1, 1),
    ];
    let out = classify(&raw, true);
    assert_eq!(out.len(), 1);
    assert_eq!(out[0].name, "Ethernet");
}

#[test]
fn virtual_adapters_follow_the_policy() {
    let raw = vec![entry("VMware Network Adapter VMnet8", 7, 7), entry("eth0", 1, 1)];
    let hidden = classify(&raw, false);
    assert_eq!(hidden.len(), 1);
    assert_eq!(hidden[0].name, "eth0");
    let shown = classify(&raw, true);
    assert_eq!(shown.len(), 2);
    assert!(shown.iter().any(|e| e.name == "VMware Network Adapter VMnet8"));
}

#[test]
fn group_keeps_the_row_with_more_traffic() {
    let raw = vec![entry("Ethernet", 400, 0), entry("Ethernet - Miniport Adapter", 1000, 0)];
    let out = classify(&raw, true);
    assert_eq!(out.len(), 1);
    assert_eq!(out[0].name, "Ethernet");
    assert_eq!(out[0].bytes_received, 1000);
}

#[test]
fn exact_traffic_tie_keeps_the_earliest_row() {
    let raw = vec![entry("Ethernet", 1000, 0), entry("Ethernet - Miniport Adapter", 0, 1000)];
    let out = classify(&raw, true);
    assert_eq!(out.len(), 1);
    assert_eq!(out[0].bytes_received, 1000);
    assert_eq!(out[0].bytes_transmitted, 0);
}

#[test]
fn distinct_adapters_stay_distinct() {
    let raw = vec![entry("eth0", 1, 0), entry("wlan0", 2, 0)];
    let out = classify(&raw, false);
    assert_eq!(out.len(), 2);
}

use speedy::{parse_net_dev_line, PrevSample, PrevSamples};

#[test]
fn a_fresh_store_remembers_nothing() {
    let store = PrevSamples::new();
    assert_eq!(store.get("eth0"), None);
}

#[test]
fn an_observation_is_remembered_under_its_name() {
    let mut store = PrevSamples::new();
    store.upsert("eth0", PrevSample { rx: 10, tx: 20, at_ms: 30 });
    assert_eq!(store.get("eth0"), Some(PrevSample { rx: 10, tx: 20, at_ms: 30 }));
    assert_eq!(store.get("wlan0"), None);
}

#[test]
fn a_later_observation_replaces_the_stored_one() {
    let mut store = PrevSamples::new();
    store.upsert("eth0", PrevSample { rx: 10, tx: 20, at_ms: 30 });
    store.upsert("eth0", PrevSample { rx: 11, tx: 21, at_ms: 31 });
    assert_eq!(store.get("eth0"), Some(PrevSample { rx: 11, tx: 21, at_ms: 31 }));
}

#[test]
fn names_are_remembered_independently() {
    let mut store = PrevSamples::new();
    store.upsert("eth0", PrevSample { rx: 1, tx: 1, at_ms: 1 });
    store.upsert("wlan0", PrevSample { rx: 2, tx: 2, at_ms: 2 });
    store.upsert("eth0", PrevSample { rx: 3, tx: 3, at_ms: 3 });
    assert_eq!(store.get("wlan0"), Some(PrevSample { rx: 2, tx: 2, at_ms: 2 }));
    assert_eq!(store.get("eth0"), Some(PrevSample { rx: 3, tx: 3, at_ms: 3 }));
}

#[test]
fn a_single_counter_line_parses_on_its_own() {
    let row = parse_net_dev_line(
        " eth0: 1500 900 0 0 0 0 0 0 320 800 0 0 0 0 0 0",
    )
    .unwrap();
    assert_eq!(row.name, "eth0");
    assert_eq!(row.bytes_received, 1500);
    assert_eq!(row.bytes_transmitted, 320);
}

#[test]
fn a_header_line_does_not_parse() {
    assert!(parse_net_dev_line("Inter-|   Receive | Transmit").is_none());
}

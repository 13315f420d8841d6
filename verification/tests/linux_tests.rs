use speedy::parse_proc_net_dev;

const HEADER: &str = "Inter-|   Receive                                                |  Transmit\n face |bytes    packets errs drop fifo frame compressed multicast|bytes    packets errs drop fifo colls carrier compressed\n";

#[test]
fn parses_well_formed_rows() {
    let text = format!(
        "{}    lo: 2776770   11307    0    0    0     0          0         0  2776770   11307    0    0    0     0       0          0\n  eth0: 1500000     900    0    0    0     0          0         0   320000     800    0    0    0     0       0          0\n",
        HEADER
    );
    let rows = parse_proc_net_dev(&text);
    assert_eq!(rows.len(), 2);
    assert_eq!(rows[0].name, "lo");
    assert_eq!(rows[0].bytes_received, 2_776_770);
    assert_eq!(rows[0].bytes_transmitted, 2_776_770);
    assert_eq!(rows[1].name, "eth0");
    assert_eq!(rows[1].bytes_received, 1_500_000);
    assert_eq!(rows[1].bytes_transmitted, 320_000);
}

#[test]
fn short_rows_are_skipped_not_fatal() {
    let text = format!(
        "{}  bad0: 123 456\n  eth0: 10 0 0 0 0 0 0 0 20 0 0 0 0 0 0 0\n",
        HEADER
    );
    let rows = parse_proc_net_dev(&text);
    assert_eq!(rows.len(), 1);
    assert_eq!(rows[0].name, "eth0");
    assert_eq!(rows[0].bytes_received, 10);
    assert_eq!(rows[0].bytes_transmitted, 20);
}

#[test]
fn non_numeric_counters_are_skipped() {
    let text = format!(
        "{}  bad0: xx 0 0 0 0 0 0 0 20 0 0 0 0 0 0 0\n  bad1: 10 0 0 0 0 0 0 0 yy 0 0 0 0 0 0 0\n",
        HEADER
    );
    assert!(parse_proc_net_dev(&text).is_empty());
}

#[test]
fn counter_too_large_for_64_bits_is_skipped() {
    let text = format!(
        "{}  big0: 99999999999999999999 0 0 0 0 0 0 0 20 0 0 0 0 0 0 0\n  eth0: 18446744073709551615 0 0 0 0 0 0 0 1 0 0 0 0 0 0 0\n",
        HEADER
    );
    let rows = parse_proc_net_dev(&text);
    assert_eq!(rows.len(), 1);
    assert_eq!(rows[0].name, "eth0");
    assert_eq!(rows[0].bytes_received, u64::MAX);
}

#[test]
fn header_only_table_yields_nothing() {
    assert!(parse_proc_net_dev(HEADER).is_empty());
    assert!(parse_proc_net_dev("").is_empty());
    assert!(parse_proc_net_dev("one line only").is_empty());
}

#[test]
fn trailing_colon_is_stripped_from_the_name() {
    let text = format!(
        "{} wlan0: 5 0 0 0 0 0 0 0 6 0 0 0 0 0 0 0\n",
        HEADER
    );
    let rows = parse_proc_net_dev(&text);
    assert_eq!(rows[0].name, "wlan0");
}

#[test]
fn crlf_line_endings_are_tolerated() {
    let text = format!(
        "{} eth1: 7 0 0 0 0 0 0 0 8 0 0 0 0 0 0 0\r\n",
        HEADER
    );
    let rows = parse_proc_net_dev(&text);
    assert_eq!(rows.len(), 1);
    assert_eq!(rows[0].name, "eth1");
    assert_eq!(rows[0].bytes_received, 7);
    assert_eq!(rows[0].bytes_transmitted, 8);
}

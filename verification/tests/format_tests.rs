use speedy::{format_bytes, format_total_bytes};

#[test]
fn total_zero_bytes() {
    assert_eq!(format_total_bytes(0), "0.00 B");
}

#[test]
fn total_one_and_a_half_kilobytes() {
    assert_eq!(format_total_bytes(1536), "1.50 KB");
}

#[test]
fn total_one_gigabyte() {
    assert_eq!(format_total_bytes(1_073_741_824), "1.00 GB");
}

#[test]
fn total_just_below_one_kilobyte() {
    assert_eq!(format_total_bytes(1023), "1023 B");
}

#[test]
fn total_exactly_one_kilobyte() {
    assert_eq!(format_total_bytes(1024), "1.00 KB");
}

#[test]
fn total_one_decimal_place_band() {
    assert_eq!(format_total_bytes(10_752), "10.5 KB");
}

#[test]
fn total_no_decimal_places_band() {
    assert_eq!(format_total_bytes(102_400), "100 KB");
}

#[test]
fn total_one_terabyte() {
    assert_eq!(format_total_bytes(1_099_511_627_776), "1.00 TB");
}

#[test]
fn total_largest_value_stays_in_terabytes() {
    assert_eq!(format_total_bytes(u64::MAX), "16777216 TB");
}

#[test]
fn total_rounds_up_to_the_displayed_precision() {
    assert_eq!(format_total_bytes(2047), "2.00 KB");
}

#[test]
fn total_rounds_ties_to_even() {
    // 1152 / 1024 == 1.125 exactly: the hundredths tie rounds down to 12.
    assert_eq!(format_total_bytes(1152), "1.12 KB");
    // 1408 / 1024 == 1.375 exactly: the hundredths tie rounds up to 38.
    assert_eq!(format_total_bytes(1408), "1.38 KB");
}

#[test]
fn rate_two_and_a_half_megabytes() {
    assert_eq!(format_bytes(2_621_440), "2.50 MB/s");
}

#[test]
fn rate_zero() {
    assert_eq!(format_bytes(0), "0.00 B/s");
}

#[test]
fn rate_caps_at_gigabytes_per_second() {
    assert_eq!(format_bytes(5_497_558_138_880), "5120 GB/s");
}

#[test]
fn rate_kilobyte_band() {
    assert_eq!(format_bytes(1536), "1.50 KB/s");
}

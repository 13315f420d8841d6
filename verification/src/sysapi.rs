//! The trusted boundary to the host: the generic interface-counter
//! enumeration and the wall clock. Each item here wraps one outside call
//! and hands the library plain values; what comes back depends on the
//! host, so their contracts promise nothing about the values.

use vstd::prelude::*;

use crate::entry::RawCounterEntry;

verus! {

/// Relies on `sysinfo::Networks::new_with_refreshed_list` and the
/// per-interface getters `total_received` / `total_transmitted`: one row
/// per interface the host knows, with its name (the generic source has no
/// separate friendly name) and the cumulative byte counters as the
/// operating system reports them.
#[verifier::external_body]
pub(crate) fn generic_counters() -> (r: Vec<RawCounterEntry>) {
    let networks = sysinfo::Networks::new_with_refreshed_list();
    let mut out = Vec::new();
    for (name, data) in &networks {
        out.push(RawCounterEntry {
            name: name.clone(),
            friendly_name: name.clone(),
            bytes_received: data.total_received(),
            bytes_transmitted: data.total_transmitted(),
        });
    }
    out
}

/// Relies on `std::time::SystemTime::now`: the wall clock, as whole
/// milliseconds since the Unix epoch, truncated to 64 bits; zero for a
/// clock set before the epoch. The rate computation tolerates any value,
/// a clock that jumped backwards included.
#[verifier::external_body]
pub(crate) fn now_millis() -> (r: u64) {
    match std::time::SystemTime::now().duration_since(std::time::UNIX_EPOCH) {
        Ok(d) => d.as_millis() as u64,
        Err(_) => 0,
    }
}

} // verus!

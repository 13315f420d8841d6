//! Core of a per-network-interface throughput monitor.
//!
//! The library turns cumulative per-interface byte counters, as the
//! operating system reports them, into a clean snapshot: pseudo-adapters
//! filtered out, duplicate driver-stack rows collapsed, instantaneous
//! rates computed against the previous poll, and the result sorted by
//! name. Pure formatters scale byte totals and rates for display.

pub mod chars;
pub mod classify;
pub mod entry;
pub mod format;
pub mod network_linux;
pub mod network_monitor;
pub mod network_windows;
pub mod rate;
pub mod reconcile;
pub mod state;
mod sysapi;

pub use classify::{classify, clean_interface_name};
pub use entry::RawCounterEntry;
pub use format::{format_bytes, format_total_bytes};
pub use network_linux::{parse_net_dev_line, parse_proc_net_dev, LinuxNetworkStats};
pub use network_monitor::{NetworkMonitor, NetworkStats};
pub use network_windows::{
    count_connections, find_likely_interface, get_active_connections_by_interface,
    get_network_interface_stats, windows_stats_from, SocketObservation, SourceError,
    WindowsNetworkStats,
};
pub use rate::{compute_rates, PrevSample};
pub use reconcile::merge;
pub use state::PrevSamples;

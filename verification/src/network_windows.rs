//! The enriched counter path: the generic enumeration joined with live
//! socket observations to improve activity classification.
//!
//! The socket table only shows local addresses, so each counted socket is
//! attributed to a likely interface by name pattern: the first interface
//! whose name contains a well-known marker, tried in a fixed order that
//! depends on the address family. Loopback rows never appear in the
//! output, and display names are cleaned of technical suffixes.

use vstd::prelude::*;

use crate::chars::{contains_chars, contains_seq, str_chars};
use crate::classify::{clean_interface_name, clean_name_spec};
use crate::entry::{entry_views, EntryView, RawCounterEntry};
use crate::sysapi::generic_counters;

verus! {

/// One interface row of the enriched path: display name, cumulative
/// counters, and activity (traffic or live connections).
#[derive(Clone, Debug)]
pub struct WindowsNetworkStats {
    pub name: String,
    pub bytes_received: u64,
    pub bytes_transmitted: u64,
    pub friendly_name: String,
    pub is_active: bool,
}

/// The mathematical image of one enriched row.
pub ghost struct WindowsStatsView {
    pub name: Seq<char>,
    pub rx: u64,
    pub tx: u64,
    pub friendly: Seq<char>,
    pub active: bool,
}

impl View for WindowsNetworkStats {
    type V = WindowsStatsView;

    open spec fn view(&self) -> WindowsStatsView {
        WindowsStatsView {
            name: self.name@,
            rx: self.bytes_received,
            tx: self.bytes_transmitted,
            friendly: self.friendly_name@,
            active: self.is_active,
        }
    }
}

/// The views of a sequence of enriched rows, in order.
pub open spec fn windows_views(s: Seq<WindowsNetworkStats>) -> Seq<WindowsStatsView> {
    s.map_values(|e: WindowsNetworkStats| e@)
}

/// What one socket-table row shows of a socket's local address.
#[derive(Clone, Copy, PartialEq, Eq, Structural, Debug)]
pub struct SocketObservation {
    pub loopback: bool,
    pub unspecified: bool,
    pub ipv4: bool,
}

/// The error of the enriched path: the counter sources could not be
/// queried at all.
#[derive(Clone, Copy, PartialEq, Eq, Structural, Debug)]
pub enum SourceError {
    Unavailable,
}

#[verifier::external_type_specification]
#[verifier::external_body]
pub struct ExNetstatError(netstat2::error::Error);

/// Relies on `netstat2::iterate_sockets_info_without_pids` over IPv4 and
/// IPv6, TCP and UDP, and on `SocketInfo::local_addr`: one observation per
/// open socket, reduced to whether its local address is loopback,
/// unspecified, and IPv4. The pid-attaching query is avoided on purpose:
/// its process-table scan panics when that table cannot be read, and the
/// counts only need addresses. The socket table is the host's, so nothing
/// is promised of the observations.
#[verifier::external_body]
fn sockets_snapshot() -> (r: Result<Vec<SocketObservation>, netstat2::error::Error>) {
    let af = netstat2::AddressFamilyFlags::IPV4 | netstat2::AddressFamilyFlags::IPV6;
    let proto = netstat2::ProtocolFlags::TCP | netstat2::ProtocolFlags::UDP;
    let mut out = Vec::new();
    for item in netstat2::iterate_sockets_info_without_pids(af, proto)? {
        let addr = item?.local_addr();
        out.push(SocketObservation {
            loopback: addr.is_loopback(),
            unspecified: addr.is_unspecified(),
            ipv4: addr.is_ipv4(),
        });
    }
    Ok(out)
}

/// The views of a vector of interface names.
pub open spec fn name_views(names: Seq<String>) -> Seq<Seq<char>> {
    names.map_values(|s: String| s@)
}

/// Whether `i` is the earliest name containing `pattern`.
pub open spec fn is_first_containing(names: Seq<Seq<char>>, pattern: Seq<char>, i: int) -> bool {
    &&& 0 <= i < names.len()
    &&& contains_seq(names[i], pattern)
    &&& forall|j: int| 0 <= j < i ==> !contains_seq(#[trigger] names[j], pattern)
}

/// The earliest name containing `pattern`, if any.
pub open spec fn first_containing(names: Seq<Seq<char>>, pattern: Seq<char>) -> Option<int> {
    if exists|i: int| is_first_containing(names, pattern, i) {
        Some(choose|i: int| is_first_containing(names, pattern, i))
    } else {
        None
    }
}

/// The interface a counted socket is attributed to: the first name with a
/// well-known marker, Ethernet before Wi-Fi, with the generic kernel names
/// tried as well for an IPv4 address.
pub open spec fn socket_target(names: Seq<Seq<char>>, ipv4: bool) -> Option<int> {
    match first_containing(names, "Ethernet"@) {
        Some(i) => Some(i),
        None => match first_containing(names, "Wi-Fi"@) {
            Some(i) => Some(i),
            None => if ipv4 {
                match first_containing(names, "eth"@) {
                    Some(i) => Some(i),
                    None => first_containing(names, "wlan"@),
                }
            } else {
                None
            },
        },
    }
}

/// Whether a socket takes part in the per-interface connection counts: it
/// must have a real, bound local address.
pub open spec fn counted(s: SocketObservation) -> bool {
    !s.loopback && !s.unspecified
}

/// The per-interface connection counts after attributing every counted
/// socket to its target interface; a socket with no target is dropped.
pub open spec fn conn_counts(names: Seq<Seq<char>>, socks: Seq<SocketObservation>) -> Seq<nat>
    decreases socks.len(),
{
    if socks.len() == 0 {
        Seq::new(names.len(), |i: int| 0nat)
    } else {
        let prev = conn_counts(names, socks.drop_last());
        let s = socks.last();
        if counted(s) {
            match socket_target(names, s.ipv4) {
                Some(t) => prev.update(t, (prev[t] + 1) as nat),
                None => prev,
            }
        } else {
            prev
        }
    }
}

/// No connection count exceeds the number of sockets.
proof fn lemma_conn_counts_bound(names: Seq<Seq<char>>, socks: Seq<SocketObservation>)
    ensures
        conn_counts(names, socks).len() == names.len(),
        forall|i: int|
            0 <= i < names.len() ==> #[trigger] conn_counts(names, socks)[i] <= socks.len(),
    decreases socks.len(),
{
    if socks.len() > 0 {
        lemma_conn_counts_bound(names, socks.drop_last());
    }
}

/// The earliest of `names` containing `pattern`, if any.
pub fn find_likely_interface(names: &Vec<String>, pattern: &str) -> (r: Option<usize>)
    ensures
        match r {
            Option::Some(i) => is_first_containing(name_views(names@), pattern@, i as int),
            Option::None => forall|j: int|
                0 <= j < names@.len() ==> !contains_seq(#[trigger] name_views(names@)[j], pattern@),
        },
{
    let p = str_chars(pattern);
    let n = names.len();
    let mut j: usize = 0;
    while j < n
        invariant
            n == names@.len(),
            p@ == pattern@,
            j <= n,
            forall|j2: int|
                0 <= j2 < j ==> !contains_seq(#[trigger] name_views(names@)[j2], pattern@),
        decreases n - j,
    {
        let h = str_chars(names[j].as_str());
        if contains_chars(&h, &p) {
            proof {
                assert(name_views(names@)[j as int] == names@[j as int]@);
            }
            return Some(j);
        }
        proof {
            assert(name_views(names@)[j as int] == names@[j as int]@);
        }
        j += 1;
    }
    None
}

/// The target interface for one counted socket, as `socket_target` picks
/// it.
fn socket_target_exec(names: &Vec<String>, ipv4: bool) -> (r: Option<usize>)
    ensures
        match r {
            Option::Some(t) => socket_target(name_views(names@), ipv4) == Some(t as int),
            Option::None => socket_target(name_views(names@), ipv4) is None,
        },
{
    let ghost nv = name_views(names@);
    match find_likely_interface(names, "Ethernet") {
        Option::Some(t) => {
            proof {
                assert(is_first_containing(nv, "Ethernet"@, t as int));
                let w = choose|w: int| is_first_containing(nv, "Ethernet"@, w);
                assert(w == t as int);
            }
            Some(t)
        },
        Option::None => match find_likely_interface(names, "Wi-Fi") {
            Option::Some(t) => {
                proof {
                    assert(is_first_containing(nv, "Wi-Fi"@, t as int));
                    let w = choose|w: int| is_first_containing(nv, "Wi-Fi"@, w);
                    assert(w == t as int);
                }
                Some(t)
            },
            Option::None => {
                if ipv4 {
                    match find_likely_interface(names, "eth") {
                        Option::Some(t) => {
                            proof {
                                assert(is_first_containing(nv, "eth"@, t as int));
                                let w = choose|w: int| is_first_containing(nv, "eth"@, w);
                                assert(w == t as int);
                            }
                            Some(t)
                        },
                        Option::None => match find_likely_interface(names, "wlan") {
                            Option::Some(t) => {
                                proof {
                                    assert(is_first_containing(nv, "wlan"@, t as int));
                                    let w = choose|w: int| is_first_containing(nv, "wlan"@, w);
                                    assert(w == t as int);
                                }
                                Some(t)
                            },
                            Option::None => None,
                        },
                    }
                } else {
                    None
                }
            },
        },
    }
}

/// The per-interface connection counts for the given socket observations,
/// aligned with `names`.
pub fn count_connections(names: &Vec<String>, socks: &Vec<SocketObservation>) -> (r: Vec<u64>)
    ensures
        r@.len() == names@.len(),
        forall|i: int|
            0 <= i < names@.len() ==> #[trigger] r@[i] as nat == conn_counts(
                name_views(names@),
                socks@,
            )[i],
{
    let ghost nv = name_views(names@);
    let n = names.len();
    let m = socks.len();
    let mut counts: Vec<u64> = Vec::new();
    let mut i: usize = 0;
    while i < n
        invariant
            n == names@.len(),
            i <= n,
            counts@.len() == i,
            forall|i2: int| 0 <= i2 < i ==> #[trigger] counts@[i2] == 0,
        decreases n - i,
    {
        counts.push(0);
        i += 1;
    }
    let mut j: usize = 0;
    proof {
        assert(socks@.take(0) =~= Seq::<SocketObservation>::empty());
        assert(forall|i2: int|
            0 <= i2 < n ==> #[trigger] conn_counts(nv, socks@.take(0))[i2] == 0nat);
    }
    while j < m
        invariant
            n == names@.len(),
            nv == name_views(names@),
            m == socks@.len(),
            j <= m,
            counts@.len() == n,
            forall|i2: int|
                0 <= i2 < n ==> #[trigger] counts@[i2] as nat == conn_counts(
                    nv,
                    socks@.take(j as int),
                )[i2],
            forall|i2: int| 0 <= i2 < n ==> #[trigger] counts@[i2] <= j,
        decreases m - j,
    {
        let ghost sv = socks@[j as int];
        proof {
            assert(socks@.take(j + 1) =~= socks@.take(j as int).push(sv));
            assert(socks@.take(j + 1).drop_last() =~= socks@.take(j as int));
            lemma_conn_counts_bound(nv, socks@.take(j as int));
        }
        let s = socks[j];
        if !s.loopback && !s.unspecified {
            match socket_target_exec(names, s.ipv4) {
                Option::Some(t) => {
                    let ghost c0 = counts@;
                    let cur = counts[t];
                    counts.set(t, cur + 1);
                    proof {
                        assert(counts@ =~= c0.update(t as int, (c0[t as int] + 1) as u64));
                    }
                },
                Option::None => {
                },
            }
        }
        j += 1;
    }
    proof {
        assert(socks@.take(m as int) =~= socks@);
    }
    counts
}

/// The enriched row for the counter row `e` with `c` live connections.
pub open spec fn windows_row(e: EntryView, c: nat) -> WindowsStatsView {
    WindowsStatsView {
        name: clean_name_spec(e.name),
        rx: e.rx,
        tx: e.tx,
        friendly: clean_name_spec(e.name),
        active: e.rx > 0 || e.tx > 0 || c > 0,
    }
}

/// The enriched rows for counter rows and their aligned connection
/// counts: loopback rows dropped, names cleaned, activity from traffic or
/// live connections.
pub open spec fn windows_rows(entries: Seq<EntryView>, counts: Seq<nat>) -> Seq<WindowsStatsView>
    recommends
        entries.len() == counts.len(),
    decreases entries.len(),
{
    if entries.len() == 0 {
        Seq::empty()
    } else {
        let rest = windows_rows(entries.drop_last(), counts.drop_last());
        let e = entries.last();
        if contains_seq(e.name, "Loopback"@) {
            rest
        } else {
            rest.push(windows_row(e, counts.last()))
        }
    }
}

/// The enriched rows for the raw counter rows and their aligned live
/// connection counts.
pub fn windows_stats_from(entries: &Vec<RawCounterEntry>, counts: &Vec<u64>) -> (r: Vec<
    WindowsNetworkStats,
>)
    requires
        entries@.len() == counts@.len(),
    ensures
        windows_views(r@) == windows_rows(
            entry_views(entries@),
            counts@.map_values(|c: u64| c as nat),
        ),
{
    let ghost evs = entry_views(entries@);
    let ghost cns = counts@.map_values(|c: u64| c as nat);
    let n = entries.len();
    let mut out: Vec<WindowsNetworkStats> = Vec::new();
    let mut i: usize = 0;
    proof {
        assert(evs.take(0) =~= Seq::<EntryView>::empty());
        assert(cns.take(0) =~= Seq::<nat>::empty());
        assert(windows_views(out@) =~= windows_rows(evs.take(0), cns.take(0)));
    }
    while i < n
        invariant
            n == entries@.len(),
            n == counts@.len(),
            evs == entry_views(entries@),
            cns == counts@.map_values(|c: u64| c as nat),
            i <= n,
            windows_views(out@) == windows_rows(evs.take(i as int), cns.take(i as int)),
        decreases n - i,
    {
        let ghost ev = evs[i as int];
        proof {
            assert(evs.take(i + 1) =~= evs.take(i as int).push(ev));
            assert(cns.take(i + 1) =~= cns.take(i as int).push(cns[i as int]));
            assert(evs.take(i + 1).drop_last() =~= evs.take(i as int));
            assert(cns.take(i + 1).drop_last() =~= cns.take(i as int));
        }
        let name = str_chars(entries[i].name.as_str());
        let marker = str_chars("Loopback");
        if !contains_chars(&name, &marker) {
            let display = clean_interface_name(entries[i].name.as_str());
            let display2 = clean_interface_name(entries[i].name.as_str());
            let s = WindowsNetworkStats {
                name: display,
                bytes_received: entries[i].bytes_received,
                bytes_transmitted: entries[i].bytes_transmitted,
                friendly_name: display2,
                is_active: entries[i].bytes_received > 0 || entries[i].bytes_transmitted > 0
                    || counts[i] > 0,
            };
            let ghost out0 = out@;
            proof {
                assert(s@ == windows_row(ev, cns[i as int]));
            }
            out.push(s);
            proof {
                assert(windows_views(out@) =~= windows_views(out0).push(windows_row(
                    ev,
                    cns[i as int],
                )));
            }
        }
        i += 1;
    }
    proof {
        assert(evs.take(n as int) =~= evs);
        assert(cns.take(n as int) =~= cns);
    }
    out
}

/// Whether `r` holds the connection counts that the socket observations
/// `socks` give the interfaces `names`.
pub open spec fn counts_match(names: Seq<String>, socks: Seq<SocketObservation>, r: Seq<u64>) -> bool {
    forall|i: int|
        0 <= i < names.len() ==> #[trigger] r[i] as nat == conn_counts(name_views(names), socks)[i]
}

/// The live connection counts for the given interface names, from the
/// host's socket table; all zero when the table cannot be read, so a
/// socket-side failure only weakens activity detection and is never
/// surfaced.
pub fn get_active_connections_by_interface(names: &Vec<String>) -> (r: Vec<u64>)
    ensures
        r@.len() == names@.len(),
        exists|socks: Seq<SocketObservation>| counts_match(names@, socks, r@),
{
    match sockets_snapshot() {
        Result::Ok(socks) => {
            let r = count_connections(names, &socks);
            proof {
                assert(counts_match(names@, socks@, r@));
            }
            r
        },
        Result::Err(_) => {
            let n = names.len();
            let mut counts: Vec<u64> = Vec::new();
            let mut i: usize = 0;
            while i < n
                invariant
                    i <= n,
                    counts@.len() == i,
                    forall|i2: int| 0 <= i2 < i ==> #[trigger] counts@[i2] == 0,
                decreases n - i,
            {
                counts.push(0);
                i += 1;
            }
            proof {
                assert(counts_match(names@, Seq::<SocketObservation>::empty(), counts@));
            }
            counts
        },
    }
}

/// One poll of the enriched path: the generic counter rows, the socket
/// table for live-connection counts, and the verified row construction.
/// The sources never make the whole poll fail: a socket-side error only
/// zeroes the connection counts.
/// Whether `r` holds exactly the enriched rows that the counter rows
/// `entries` and the socket observations `socks` give: every counted
/// socket attributed by name, and each non-loopback row cleaned and
/// annotated with its connection count.
pub open spec fn enriched_outcome(
    r: Seq<WindowsStatsView>,
    entries: Seq<EntryView>,
    socks: Seq<SocketObservation>,
) -> bool {
    r == windows_rows(entries, conn_counts(entries.map_values(|e: EntryView| e.name), socks))
}

pub fn get_network_interface_stats(_show_virtual: bool) -> (r: Result<
    Vec<WindowsNetworkStats>,
    SourceError,
>)
    ensures
        r is Ok,
        exists|entries: Seq<EntryView>, socks: Seq<SocketObservation>|
            enriched_outcome(windows_views((r->Ok_0)@), entries, socks),
{
    let entries = generic_counters();
    let mut names: Vec<String> = Vec::new();
    let n = entries.len();
    let mut i: usize = 0;
    while i < n
        invariant
            n == entries@.len(),
            i <= n,
            names@.len() == i,
            forall|j: int| 0 <= j < i ==> (#[trigger] names@[j])@ == entries@[j].name@,
        decreases n - i,
    {
        names.push(entries[i].name.clone());
        i += 1;
    }
    let counts = get_active_connections_by_interface(&names);
    let stats = windows_stats_from(&entries, &counts);
    let result: Result<Vec<WindowsNetworkStats>, SourceError> = Ok(stats);
    proof {
        let evs = entry_views(entries@);
        let nv = name_views(names@);
        assert(nv =~= evs.map_values(|e: EntryView| e.name));
        let socks = choose|socks: Seq<SocketObservation>| counts_match(names@, socks, counts@);
        lemma_conn_counts_bound(nv, socks);
        assert(counts@.map_values(|c: u64| c as nat) =~= conn_counts(nv, socks));
        assert(enriched_outcome(windows_views((result->Ok_0)@), evs, socks));
    }
    result
}

} // verus!

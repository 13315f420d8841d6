//! Interface classification: filtering out pseudo-adapters and collapsing
//! the several driver-stack rows that one physical adapter can expose.
//!
//! An operating system may report one row per layer in an adapter's driver
//! stack (packet-scheduler shims, filter-platform shims, miniports) beside
//! the row for the adapter itself. Loopback, kernel-debug, tunneling and
//! stack-layer rows are never real interfaces and are always dropped;
//! virtual-adapter rows are dropped unless the caller asks for them; what
//! survives is grouped under a cleaned display name and the row with the
//! most observed traffic represents the group.

use vstd::prelude::*;

use crate::chars::{
    chars_eq, chars_to_string, contains_chars, contains_seq, remove_all, remove_all_chars,
    str_chars, trim_chars, trim_spec,
};
use crate::entry::{entry_views, EntryView, RawCounterEntry};

verus! {

/// The suffix patterns stripped by name cleaning are not empty.
proof fn clean_exec_patterns_len()
    ensures
        "-WFP Native MAC Layer LightWeight Filter-0000"@.len() > 0,
        "-WFP Native MAC Layer LightWeight Filter"@.len() > 0,
        "-QoS Packet Scheduler-0000"@.len() > 0,
        "-QoS Packet Scheduler"@.len() > 0,
        " - Miniport Adapter"@.len() > 0,
        " - Virtual Switch"@.len() > 0,
{
    reveal_strlit("-WFP Native MAC Layer LightWeight Filter-0000");
    reveal_strlit("-WFP Native MAC Layer LightWeight Filter");
    reveal_strlit("-QoS Packet Scheduler-0000");
    reveal_strlit("-QoS Packet Scheduler");
    reveal_strlit(" - Miniport Adapter");
    reveal_strlit(" - Virtual Switch");
}

/// The cleaned display name: the name with the known technical suffixes
/// (filter, scheduler, miniport and virtual-switch annotations) removed and
/// surrounding whitespace trimmed.
pub open spec fn clean_name_spec(s: Seq<char>) -> Seq<char> {
    trim_spec(
        remove_all(
            remove_all(
                remove_all(
                    remove_all(
                        remove_all(
                            remove_all(s, "-WFP Native MAC Layer LightWeight Filter-0000"@),
                            "-WFP Native MAC Layer LightWeight Filter"@,
                        ),
                        "-QoS Packet Scheduler-0000"@,
                    ),
                    "-QoS Packet Scheduler"@,
                ),
                " - Miniport Adapter"@,
            ),
            " - Virtual Switch"@,
        ),
    )
}

/// The cleaned form of `h`.
pub fn clean_chars(h: &Vec<char>) -> (r: Vec<char>)
    ensures
        r@ == clean_name_spec(h@),
{
    proof {
        clean_exec_patterns_len();
    }
    let p1 = str_chars("-WFP Native MAC Layer LightWeight Filter-0000");
    let p2 = str_chars("-WFP Native MAC Layer LightWeight Filter");
    let p3 = str_chars("-QoS Packet Scheduler-0000");
    let p4 = str_chars("-QoS Packet Scheduler");
    let p5 = str_chars(" - Miniport Adapter");
    let p6 = str_chars(" - Virtual Switch");
    let s1 = remove_all_chars(h, &p1);
    let s2 = remove_all_chars(&s1, &p2);
    let s3 = remove_all_chars(&s2, &p3);
    let s4 = remove_all_chars(&s3, &p4);
    let s5 = remove_all_chars(&s4, &p5);
    let s6 = remove_all_chars(&s5, &p6);
    trim_chars(&s6)
}

/// The display name an interface is shown under: technical driver-stack
/// suffixes stripped and surrounding whitespace trimmed.
pub fn clean_interface_name(name: &str) -> (r: String)
    ensures
        r@ == clean_name_spec(name@),
{
    let h = str_chars(name);
    let cleaned = clean_chars(&h);
    chars_to_string(&cleaned)
}

/// Whether the marker occurs in the system name or in the friendly name.
pub open spec fn has_marker(name: Seq<char>, friendly: Seq<char>, marker: Seq<char>) -> bool {
    contains_seq(name, marker) || contains_seq(friendly, marker)
}

/// Rows that are never real physical interfaces, whatever the caller asked
/// for: loopback, kernel-debug, tunneling-protocol pseudo-adapters, and
/// driver-stack layers (packet-scheduler and filter-platform shims).
pub open spec fn always_excluded(name: Seq<char>, friendly: Seq<char>) -> bool {
    ||| name == "lo"@
    ||| has_marker(name, friendly, "Loopback"@)
    ||| has_marker(name, friendly, "Kernel Debug"@)
    ||| has_marker(name, friendly, "Teredo"@)
    ||| has_marker(name, friendly, "isatap"@)
    ||| has_marker(name, friendly, "ISATAP"@)
    ||| has_marker(name, friendly, "6to4"@)
    ||| has_marker(name, friendly, "6TO4"@)
    ||| has_marker(name, friendly, "QoS Packet Scheduler"@)
    ||| has_marker(name, friendly, "WFP"@)
}

/// Rows for virtual adapters, tunnel software and virtualization
/// platforms; dropped only when the caller did not ask for virtual
/// interfaces.
pub open spec fn virtual_excluded(name: Seq<char>, friendly: Seq<char>) -> bool {
    ||| has_marker(name, friendly, "Miniport"@)
    ||| has_marker(name, friendly, "Virtual"@)
    ||| has_marker(name, friendly, "vEthernet"@)
    ||| has_marker(name, friendly, "VMware"@)
    ||| has_marker(name, friendly, "Hyper-V"@)
    ||| has_marker(name, friendly, "TAP"@)
    ||| has_marker(name, friendly, "VPN"@)
    ||| has_marker(name, friendly, "WireGuard"@)
    ||| has_marker(name, friendly, "Tunnel"@)
}

/// Whether a row stays in the snapshot under the given virtual-adapter
/// policy.
pub open spec fn survives(e: EntryView, show_virtual: bool) -> bool {
    !always_excluded(e.name, e.friendly) && (show_virtual || !virtual_excluded(e.name, e.friendly))
}

/// Whether the marker occurs in either name.
fn has_marker_exec(name: &Vec<char>, friendly: &Vec<char>, marker: &str) -> (r: bool)
    ensures
        r == has_marker(name@, friendly@, marker@),
{
    let m = str_chars(marker);
    contains_chars(name, &m) || contains_chars(friendly, &m)
}

/// Whether the row is never a real physical interface.
fn always_excluded_exec(name: &Vec<char>, friendly: &Vec<char>) -> (r: bool)
    ensures
        r == always_excluded(name@, friendly@),
{
    let lo = str_chars("lo");
    chars_eq(name, &lo) || has_marker_exec(name, friendly, "Loopback") || has_marker_exec(
        name,
        friendly,
        "Kernel Debug",
    ) || has_marker_exec(name, friendly, "Teredo") || has_marker_exec(name, friendly, "isatap")
        || has_marker_exec(name, friendly, "ISATAP") || has_marker_exec(name, friendly, "6to4")
        || has_marker_exec(name, friendly, "6TO4") || has_marker_exec(
        name,
        friendly,
        "QoS Packet Scheduler",
    ) || has_marker_exec(name, friendly, "WFP")
}

/// Whether the row is a virtual adapter.
fn virtual_excluded_exec(name: &Vec<char>, friendly: &Vec<char>) -> (r: bool)
    ensures
        r == virtual_excluded(name@, friendly@),
{
    has_marker_exec(name, friendly, "Miniport") || has_marker_exec(name, friendly, "Virtual")
        || has_marker_exec(name, friendly, "vEthernet") || has_marker_exec(
        name,
        friendly,
        "VMware",
    ) || has_marker_exec(name, friendly, "Hyper-V") || has_marker_exec(name, friendly, "TAP")
        || has_marker_exec(name, friendly, "VPN") || has_marker_exec(name, friendly, "WireGuard")
        || has_marker_exec(name, friendly, "Tunnel")
}

/// Whether the row stays under the given virtual-adapter policy.
fn survives_exec(e: &RawCounterEntry, show_virtual: bool) -> (r: bool)
    ensures
        r == survives(e@, show_virtual),
{
    let name = str_chars(e.name.as_str());
    let friendly = str_chars(e.friendly_name.as_str());
    !always_excluded_exec(&name, &friendly) && (show_virtual || !virtual_excluded_exec(
        &name,
        &friendly,
    ))
}

/// The combined traffic of a row.
pub open spec fn entry_total(e: EntryView) -> nat {
    e.rx as nat + e.tx as nat
}

/// Whether the raw system name carries the filter-platform shim marker.
pub open spec fn is_filter_shim(e: EntryView) -> bool {
    contains_seq(e.name, "WFP"@)
}

/// Whether `c` displaces `b` as the representative of a group: strictly
/// more traffic, or equal traffic where `b` is a filter-shim row and `c`
/// is not.
pub open spec fn better(c: EntryView, b: EntryView) -> bool {
    ||| entry_total(c) > entry_total(b)
    ||| (entry_total(c) == entry_total(b) && is_filter_shim(b) && !is_filter_shim(c))
}

/// The representative of a non-empty group: the row with the most traffic;
/// among rows with equal traffic the earliest wins, except that a
/// filter-shim row yields to a later non-shim row with the same traffic.
pub open spec fn best_in(g: Seq<EntryView>) -> EntryView
    recommends
        g.len() > 0,
    decreases g.len(),
{
    if g.len() <= 1 {
        g[0]
    } else {
        let b = best_in(g.drop_last());
        if better(g.last(), b) {
            g.last()
        } else {
            b
        }
    }
}

/// The cleaned key a row is grouped under, derived from its friendly name.
pub open spec fn key_of(e: EntryView) -> Seq<char> {
    clean_name_spec(e.friendly)
}

/// The predicate selecting the rows that survive the exclusion filters.
pub open spec fn survives_fn(show_virtual: bool) -> spec_fn(EntryView) -> bool {
    |e: EntryView| survives(e, show_virtual)
}

/// The rows of `s` that survive the exclusion filters, in order.
pub open spec fn survivors(s: Seq<EntryView>, show_virtual: bool) -> Seq<EntryView> {
    s.filter(survives_fn(show_virtual))
}

/// The function taking each row to its cleaned key.
pub open spec fn key_fn() -> spec_fn(EntryView) -> Seq<char> {
    |e: EntryView| key_of(e)
}

/// The predicate selecting the rows grouped under key `k`.
pub open spec fn group_fn(k: Seq<char>) -> spec_fn(EntryView) -> bool {
    |e: EntryView| key_of(e) == k
}

/// The rows of `s` grouped under key `k`.
pub open spec fn group_of(s: Seq<EntryView>, k: Seq<char>) -> Seq<EntryView> {
    s.filter(group_fn(k))
}

/// The cleaned keys of `s`, in first-appearance order, without
/// repetitions.
pub open spec fn distinct_keys(keys: Seq<Seq<char>>) -> Seq<Seq<char>>
    decreases keys.len(),
{
    if keys.len() == 0 {
        Seq::empty()
    } else {
        let prev = distinct_keys(keys.drop_last());
        if keys.drop_last().contains(keys.last()) {
            prev
        } else {
            prev.push(keys.last())
        }
    }
}

/// The display row a group is collapsed to: the cleaned key as both names,
/// with the representative's counters.
pub open spec fn display_entry(k: Seq<char>, best: EntryView) -> EntryView {
    EntryView { name: k, friendly: k, rx: best.rx, tx: best.tx }
}

/// `s` collapsed to one display row per cleaned key, in first-appearance
/// order of the keys.
pub open spec fn dedup_spec(s: Seq<EntryView>) -> Seq<EntryView> {
    distinct_keys(s.map_values(key_fn())).map_values(
        |k: Seq<char>| display_entry(k, best_in(group_of(s, k))),
    )
}

/// What classification returns for raw rows `s`: the surviving rows under
/// the virtual-adapter policy, collapsed to one display row per cleaned
/// key.
pub open spec fn classify_spec(s: Seq<EntryView>, show_virtual: bool) -> Seq<EntryView> {
    dedup_spec(survivors(s, show_virtual))
}

/// Filtering a sequence extended by one element keeps the filtered prefix
/// and appends the element exactly when it satisfies the predicate.
proof fn lemma_filter_push<A>(s: Seq<A>, pred: spec_fn(A) -> bool, e: A)
    ensures
        s.push(e).filter(pred) == if pred(e) {
            s.filter(pred).push(e)
        } else {
            s.filter(pred)
        },
{
    reveal(Seq::filter);
    assert(s.push(e).drop_last() =~= s);
    assert(s.push(e).last() == e);
}

/// Membership in a sequence splits into membership in all but the last
/// element, or equality with the last.
proof fn lemma_contains_split<A>(s: Seq<A>, x: A)
    requires
        s.len() > 0,
    ensures
        s.contains(x) == (s.drop_last().contains(x) || s.last() == x),
{
    if s.contains(x) {
        let i = choose|i: int| 0 <= i < s.len() && s[i] == x;
        if i < s.len() - 1 {
            assert(s.drop_last()[i] == x);
        }
    }
    if s.drop_last().contains(x) {
        let i = choose|i: int| 0 <= i < s.drop_last().len() && s.drop_last()[i] == x;
        assert(s[i] == x);
    }
    if s.last() == x {
        assert(s[s.len() - 1] == x);
    }
}

/// The distinct keys are exactly the keys that occur.
proof fn lemma_distinct_contains(keys: Seq<Seq<char>>, k: Seq<char>)
    ensures
        distinct_keys(keys).contains(k) == keys.contains(k),
    decreases keys.len(),
{
    if keys.len() > 0 {
        lemma_distinct_contains(keys.drop_last(), k);
        lemma_contains_split(keys, k);
        let prev = distinct_keys(keys.drop_last());
        if !keys.drop_last().contains(keys.last()) {
            lemma_contains_split(prev.push(keys.last()), k);
            assert(prev.push(keys.last()).drop_last() =~= prev);
        }
    }
}

/// No key repeats among the distinct keys.
proof fn lemma_distinct_no_duplicates(keys: Seq<Seq<char>>)
    ensures
        distinct_keys(keys).no_duplicates(),
    decreases keys.len(),
{
    if keys.len() > 0 {
        lemma_distinct_no_duplicates(keys.drop_last());
        lemma_distinct_contains(keys.drop_last(), keys.last());
        let prev = distinct_keys(keys.drop_last());
        if !keys.drop_last().contains(keys.last()) {
            assert forall|i: int, j: int|
                0 <= i < prev.push(keys.last()).len() && 0 <= j < prev.push(keys.last()).len() && i
                    != j implies prev.push(keys.last())[i] != prev.push(keys.last())[j] by {
                if i < prev.len() && j < prev.len() {
                    assert(prev[i] != prev[j]);
                } else if j == prev.len() && i < prev.len() {
                    assert(prev.contains(prev[i]));
                } else if i == prev.len() && j < prev.len() {
                    assert(prev.contains(prev[j]));
                }
            }
        }
    }
}

/// Whether `c` displaces `b` as the representative of its group.
fn better_exec(c: &RawCounterEntry, b: &RawCounterEntry) -> (r: bool)
    ensures
        r == better(c@, b@),
{
    let ct = c.bytes_received as u128 + c.bytes_transmitted as u128;
    let bt = b.bytes_received as u128 + b.bytes_transmitted as u128;
    if ct > bt {
        true
    } else if ct == bt {
        let cn = str_chars(c.name.as_str());
        let bn = str_chars(b.name.as_str());
        let w = str_chars("WFP");
        contains_chars(&bn, &w) && !contains_chars(&cn, &w)
    } else {
        false
    }
}

/// A fresh row holding the same names and counters.
fn copy_entry(e: &RawCounterEntry) -> (r: RawCounterEntry)
    ensures
        r@ == e@,
{
    RawCounterEntry {
        name: e.name.clone(),
        friendly_name: e.friendly_name.clone(),
        bytes_received: e.bytes_received,
        bytes_transmitted: e.bytes_transmitted,
    }
}

/// The views of a vector of key character vectors.
pub open spec fn key_views(ks: Seq<Vec<char>>) -> Seq<Seq<char>> {
    ks.map_values(|v: Vec<char>| v@)
}

/// A group is empty when no row of `s` carries its key.
proof fn lemma_group_empty(s: Seq<EntryView>, k: Seq<char>)
    requires
        forall|l: int| 0 <= l < s.len() ==> key_of(#[trigger] s[l]) != k,
    ensures
        group_of(s, k) == Seq::<EntryView>::empty(),
    decreases s.len(),
{
    reveal(Seq::filter);
    if s.len() > 0 {
        assert(forall|l: int|
            0 <= l < s.drop_last().len() ==> key_of(#[trigger] s.drop_last()[l]) != k);
        lemma_group_empty(s.drop_last(), k);
        assert(!(group_fn(k)(s.last())));
    }
}

/// The position of `k` among the stored keys, if present.
fn find_key(keys: &Vec<Vec<char>>, k: &Vec<char>) -> (r: Option<usize>)
    ensures
        match r {
            Option::Some(j) => j < keys@.len() && key_views(keys@)[j as int] == k@,
            Option::None => forall|j: int| 0 <= j < keys@.len() ==> key_views(keys@)[j] != k@,
        },
{
    let m = keys.len();
    let mut j: usize = 0;
    while j < m
        invariant
            m == keys@.len(),
            j <= m,
            forall|j2: int| 0 <= j2 < j ==> key_views(keys@)[j2] != k@,
        decreases m - j,
    {
        if chars_eq(&keys[j], k) {
            return Some(j);
        }
        j += 1;
    }
    None
}

/// `kept` collapsed to one display row per cleaned key, in first-appearance
/// order of the keys, each group represented by its best row.
fn dedup_entries(kept: &Vec<RawCounterEntry>) -> (r: Vec<RawCounterEntry>)
    ensures
        entry_views(r@) == dedup_spec(entry_views(kept@)),
{
    let n = kept.len();
    let mut keys: Vec<Vec<char>> = Vec::new();
    let mut bests: Vec<RawCounterEntry> = Vec::new();
    let mut i: usize = 0;
    proof {
        assert(kept@.take(0) =~= Seq::<RawCounterEntry>::empty());
        assert(entry_views(kept@.take(0)) =~= Seq::<EntryView>::empty());
        assert(entry_views(kept@.take(0)).map_values(key_fn()) =~= Seq::<Seq<char>>::empty());
        assert(key_views(keys@) =~= Seq::<Seq<char>>::empty());
    }
    while i < n
        invariant
            n == kept@.len(),
            i <= n,
            keys@.len() == bests@.len(),
            key_views(keys@) == distinct_keys(
                entry_views(kept@.take(i as int)).map_values(key_fn()),
            ),
            forall|j: int|
                0 <= j < keys@.len() ==> #[trigger] bests@[j]@ == best_in(
                    group_of(entry_views(kept@.take(i as int)), key_views(keys@)[j]),
                ),
        decreases n - i,
    {
        let ghost procd = entry_views(kept@.take(i as int));
        let ghost pkeys = procd.map_values(key_fn());
        let ghost dkeys = key_views(keys@);
        let fr = str_chars(kept[i].friendly_name.as_str());
        let k = clean_chars(&fr);
        let ghost ev = kept@[i as int]@;
        let ghost kv = k@;
        proof {
            assert(kv == key_of(ev));
            assert(kept@.take(i + 1) =~= kept@.take(i as int).push(kept@[i as int]));
            assert(entry_views(kept@.take(i + 1)) =~= procd.push(ev));
            assert(procd.push(ev).map_values(key_fn()) =~= pkeys.push(kv));
            assert(pkeys.push(kv).drop_last() =~= pkeys);
            assert(pkeys.push(kv).last() == kv);
            lemma_distinct_no_duplicates(pkeys);
        }
        let slot = find_key(&keys, &k);
        match slot {
            Option::Some(j) => {
                proof {
                    assert(dkeys.contains(kv)) by {
                        assert(dkeys[j as int] == kv);
                    }
                    lemma_distinct_contains(pkeys, kv);
                    assert(pkeys.contains(kv));
                    // the distinct keys do not change
                    assert(distinct_keys(pkeys.push(kv)) == dkeys);
                    // the group under kv gains the new row
                    lemma_filter_push(procd, group_fn(kv), ev);
                    assert(group_fn(kv)(ev));
                    assert(group_of(procd.push(ev), kv) == group_of(procd, kv).push(ev));
                    // that group was not empty, so its best evolves by `better`
                    let l = choose|l: int| 0 <= l < pkeys.len() && pkeys[l] == kv;
                    assert(pkeys[l] == key_of(procd[l]));
                    assert(group_fn(kv)(procd[l]));
                    procd.lemma_filter_contains(group_fn(kv), l);
                    assert(group_of(procd, kv).len() > 0);
                    assert(group_of(procd, kv).push(ev).drop_last() =~= group_of(procd, kv));
                    assert(best_in(group_of(procd.push(ev), kv)) == if better(
                        ev,
                        best_in(group_of(procd, kv)),
                    ) {
                        ev
                    } else {
                        best_in(group_of(procd, kv))
                    });
                    // every other group is untouched
                    assert forall|j2: int|
                        0 <= j2 < dkeys.len() && j2 != j implies group_of(
                        procd.push(ev),
                        dkeys[j2],
                    ) == group_of(procd, dkeys[j2]) by {
                        assert(distinct_keys(pkeys).no_duplicates());
                        assert(dkeys[j2] != kv);
                        lemma_filter_push(procd, group_fn(dkeys[j2]), ev);
                        assert(!(group_fn(dkeys[j2])(ev)));
                    }
                }
                if better_exec(&kept[i], &bests[j]) {
                    let c = copy_entry(&kept[i]);
                    bests.set(j, c);
                }
            },
            Option::None => {
                proof {
                    if pkeys.contains(kv) {
                        lemma_distinct_contains(pkeys, kv);
                        let j0 = choose|j0: int| 0 <= j0 < dkeys.len() && dkeys[j0] == kv;
                        assert(false);
                    }
                    // a new distinct key is appended
                    assert(distinct_keys(pkeys.push(kv)) == dkeys.push(kv));
                    // its group is exactly the new row
                    assert(forall|l: int| 0 <= l < procd.len() ==> key_of(#[trigger] procd[l]) != kv)
                        by {
                        assert(forall|l: int|
                            0 <= l < procd.len() ==> pkeys[l] == key_of(#[trigger] procd[l]));
                    }
                    lemma_group_empty(procd, kv);
                    lemma_filter_push(procd, group_fn(kv), ev);
                    assert(group_fn(kv)(ev));
                    assert(group_of(procd.push(ev), kv) =~= Seq::<EntryView>::empty().push(ev));
                    assert(best_in(group_of(procd.push(ev), kv)) == ev);
                    // every existing group is untouched
                    assert forall|j2: int| 0 <= j2 < dkeys.len() implies group_of(
                        procd.push(ev),
                        dkeys[j2],
                    ) == group_of(procd, dkeys[j2]) by {
                        assert(dkeys[j2] != kv);
                        lemma_filter_push(procd, group_fn(dkeys[j2]), ev);
                        assert(!(group_fn(dkeys[j2])(ev)));
                    }
                }
                let c = copy_entry(&kept[i]);
                keys.push(k);
                bests.push(c);
                proof {
                    assert(key_views(keys@) =~= dkeys.push(kv));
                }
            },
        }
        i += 1;
    }
    proof {
        assert(kept@.take(n as int) =~= kept@);
    }
    let m = keys.len();
    let mut out: Vec<RawCounterEntry> = Vec::new();
    let mut j: usize = 0;
    proof {
        assert(entry_views(out@) =~= Seq::<EntryView>::empty());
        assert(dedup_spec(entry_views(kept@)).len() == key_views(keys@).len());
    }
    while j < m
        invariant
            m == keys@.len(),
            m == bests@.len(),
            j <= m,
            key_views(keys@) == distinct_keys(entry_views(kept@).map_values(key_fn())),
            forall|j2: int|
                0 <= j2 < keys@.len() ==> #[trigger] bests@[j2]@ == best_in(
                    group_of(entry_views(kept@), key_views(keys@)[j2]),
                ),
            entry_views(out@) == dedup_spec(entry_views(kept@)).take(j as int),
        decreases m - j,
    {
        let name = chars_to_string(&keys[j]);
        let friendly = chars_to_string(&keys[j]);
        let e = RawCounterEntry {
            name,
            friendly_name: friendly,
            bytes_received: bests[j].bytes_received,
            bytes_transmitted: bests[j].bytes_transmitted,
        };
        let ghost out0 = out@;
        out.push(e);
        j += 1;
        proof {
            let sv = entry_views(kept@);
            let dk = key_views(keys@);
            assert(bests@[j - 1]@ == best_in(group_of(sv, dk[j - 1])));
            assert(e@.name == dk[j - 1]);
            assert(e@ == display_entry(dk[j - 1], best_in(group_of(sv, dk[j - 1]))));
            assert(dedup_spec(sv)[j - 1] == display_entry(
                dk[j - 1],
                best_in(group_of(sv, dk[j - 1])),
            ));
            assert(entry_views(out@) =~= entry_views(out0).push(e@));
            assert(entry_views(out@) =~= dedup_spec(sv).take(j as int));
        }
    }
    proof {
        assert(dedup_spec(entry_views(kept@)).take(m as int) =~= dedup_spec(entry_views(kept@)));
    }
    out
}

/// The representative of a non-empty group is one of its rows.
proof fn lemma_best_in_membership(g: Seq<EntryView>)
    requires
        g.len() > 0,
    ensures
        g.contains(best_in(g)),
    decreases g.len(),
{
    if g.len() > 1 {
        lemma_best_in_membership(g.drop_last());
        if better(g.last(), best_in(g.drop_last())) {
            assert(g[g.len() - 1] == g.last());
        } else {
            let b = best_in(g.drop_last());
            let i = choose|i: int| 0 <= i < g.drop_last().len() && g.drop_last()[i] == b;
            assert(g[i] == b);
        }
    } else {
        assert(g[0] == best_in(g));
    }
}

/// A row that is always excluded — a loopback row among them — is never
/// among the survivors, whatever the virtual-adapter policy.
pub proof fn lemma_excluded_row_never_survives(s: Seq<EntryView>, show_virtual: bool, e: EntryView)
    requires
        always_excluded(e.name, e.friendly),
    ensures
        !survivors(s, show_virtual).contains(e),
{
    if survivors(s, show_virtual).contains(e) {
        let i = choose|i: int|
            0 <= i < survivors(s, show_virtual).len() && survivors(s, show_virtual)[i] == e;
        s.lemma_filter_pred(survives_fn(show_virtual), i);
        assert(survives_fn(show_virtual)(e));
    }
}

/// Every classified row takes its counters from some surviving raw row of
/// its group: a row dropped by the filters — a loopback row, for one —
/// never supplies the counters of the output.
pub proof fn lemma_classified_counters_from_survivor(s: Seq<EntryView>, show_virtual: bool)
    ensures
        forall|j: int|
            0 <= j < classify_spec(s, show_virtual).len() ==> exists|e: EntryView|
                {
                    &&& survivors(s, show_virtual).contains(e)
                    &&& survives(e, show_virtual)
                    &&& (#[trigger] classify_spec(s, show_virtual)[j]).rx == e.rx
                    &&& classify_spec(s, show_virtual)[j].tx == e.tx
                },
{
    let kept = survivors(s, show_virtual);
    let dk = distinct_keys(kept.map_values(key_fn()));
    assert forall|j: int| 0 <= j < classify_spec(s, show_virtual).len() implies exists|e: EntryView|
        {
            &&& survivors(s, show_virtual).contains(e)
            &&& survives(e, show_virtual)
            &&& (#[trigger] classify_spec(s, show_virtual)[j]).rx == e.rx
            &&& classify_spec(s, show_virtual)[j].tx == e.tx
        } by {
        let k = dk[j];
        lemma_distinct_contains(kept.map_values(key_fn()), k);
        assert(dk.contains(k)) by {
            assert(dk[j] == k);
        }
        let l = choose|l: int|
            0 <= l < kept.map_values(key_fn()).len() && kept.map_values(key_fn())[l] == k;
        assert(group_fn(k)(kept[l]));
        kept.lemma_filter_contains(group_fn(k), l);
        let g = group_of(kept, k);
        lemma_best_in_membership(g);
        let b = best_in(g);
        kept.lemma_filter_contains_rev(group_fn(k), b);
        let bi = choose|bi: int| 0 <= bi < kept.len() && kept[bi] == b;
        s.lemma_filter_pred(survives_fn(show_virtual), bi);
        assert(survives_fn(show_virtual)(b));
        assert(classify_spec(s, show_virtual)[j] == display_entry(k, b));
    }
}

/// Classified rows carry pairwise distinct display names.
pub proof fn lemma_classify_names_unique(s: Seq<EntryView>, show_virtual: bool)
    ensures
        forall|i: int, j: int|
            0 <= i < j < classify_spec(s, show_virtual).len() ==> (
            #[trigger] classify_spec(s, show_virtual)[i]).name != (
            #[trigger] classify_spec(s, show_virtual)[j]).name,
{
    let kept = survivors(s, show_virtual);
    let dk = distinct_keys(kept.map_values(key_fn()));
    lemma_distinct_no_duplicates(kept.map_values(key_fn()));
    assert forall|i: int, j: int|
        0 <= i < j < classify_spec(s, show_virtual).len() implies (
    #[trigger] classify_spec(s, show_virtual)[i]).name != (
    #[trigger] classify_spec(s, show_virtual)[j]).name by {
        assert(classify_spec(s, show_virtual)[i].name == dk[i]);
        assert(classify_spec(s, show_virtual)[j].name == dk[j]);
    }
}

/// The snapshot rows for the raw rows `entries`: pseudo-adapters dropped
/// (virtual adapters too, unless `show_virtual`), and the survivors
/// collapsed to one row per cleaned display name, each group represented
/// by the row with the most traffic.
pub fn classify(entries: &Vec<RawCounterEntry>, show_virtual: bool) -> (r: Vec<RawCounterEntry>)
    ensures
        entry_views(r@) == classify_spec(entry_views(entries@), show_virtual),
{
    let n = entries.len();
    let mut kept: Vec<RawCounterEntry> = Vec::new();
    let mut i: usize = 0;
    proof {
        assert(entries@.take(0) =~= Seq::<RawCounterEntry>::empty());
        assert(entry_views(entries@.take(0)) =~= Seq::<EntryView>::empty());
        reveal(Seq::filter);
        assert(entry_views(kept@) =~= survivors(entry_views(entries@.take(0)), show_virtual));
    }
    while i < n
        invariant
            n == entries@.len(),
            i <= n,
            entry_views(kept@) == survivors(entry_views(entries@.take(i as int)), show_virtual),
        decreases n - i,
    {
        let ghost procd = entry_views(entries@.take(i as int));
        let ghost ev = entries@[i as int]@;
        proof {
            assert(entries@.take(i + 1) =~= entries@.take(i as int).push(entries@[i as int]));
            assert(entry_views(entries@.take(i + 1)) =~= procd.push(ev));
            lemma_filter_push(procd, survives_fn(show_virtual), ev);
            assert(survives_fn(show_virtual)(ev) == survives(ev, show_virtual));
        }
        if survives_exec(&entries[i], show_virtual) {
            let ghost kept0 = kept@;
            let c = copy_entry(&entries[i]);
            kept.push(c);
            proof {
                assert(entry_views(kept@) =~= entry_views(kept0).push(ev));
            }
        }
        i += 1;
    }
    proof {
        assert(entries@.take(n as int) =~= entries@);
    }
    dedup_entries(&kept)
}

} // verus!

//! The orchestrator: one `refresh` per polling period turns the raw
//! counter rows into a clean, rate-annotated, name-sorted snapshot, and
//! carries the per-interface previous-sample state across polls.

use vstd::prelude::*;
use vstd::seq_lib::{to_multiset_build, to_multiset_insert};

use crate::chars::{lemma_lex_le_total, lemma_lex_le_transitive, lex_le, str_le};
use crate::classify::{classify, classify_spec, lemma_classify_names_unique};
use crate::entry::{entry_views, EntryView, RawCounterEntry};
use crate::rate::{compute_rates, speeds_of, PrevSample};
use crate::reconcile::{merge, merge_spec};
use crate::state::{prev_lookup, PrevSamples};
use crate::sysapi::{generic_counters, now_millis};

verus! {

/// One interface in a snapshot: its display name, the cumulative counters
/// as observed this poll, the instantaneous rates in bytes per second, and
/// whether it has ever carried traffic.
#[derive(Clone, Debug)]
pub struct NetworkStats {
    pub name: String,
    pub bytes_received: u64,
    pub bytes_transmitted: u64,
    pub download_speed: u64,
    pub upload_speed: u64,
    pub is_active: bool,
}

/// The mathematical image of one snapshot row.
pub ghost struct StatsView {
    pub name: Seq<char>,
    pub rx: u64,
    pub tx: u64,
    pub down: u64,
    pub up: u64,
    pub active: bool,
}

impl View for NetworkStats {
    type V = StatsView;

    open spec fn view(&self) -> StatsView {
        StatsView {
            name: self.name@,
            rx: self.bytes_received,
            tx: self.bytes_transmitted,
            down: self.download_speed,
            up: self.upload_speed,
            active: self.is_active,
        }
    }
}

/// The views of a sequence of snapshot rows, in order.
pub open spec fn stats_views(s: Seq<NetworkStats>) -> Seq<StatsView> {
    s.map_values(|e: NetworkStats| e@)
}

/// The snapshot row for the counter row `e` against previous state `m` at
/// `now_ms`: the observed counters, the rates against the stored previous
/// sample, and activity (nonzero cumulative traffic).
pub open spec fn sample_of(e: EntryView, m: Map<Seq<char>, PrevSample>, now_ms: u64) -> StatsView {
    let sp = speeds_of(prev_lookup(m, e.name), e.rx, e.tx, now_ms);
    StatsView {
        name: e.name,
        rx: e.rx,
        tx: e.tx,
        down: sp.0 as u64,
        up: sp.1 as u64,
        active: e.rx > 0 || e.tx > 0,
    }
}

/// The function taking each counter row to its snapshot row.
pub open spec fn sample_fn(m: Map<Seq<char>, PrevSample>, now_ms: u64) -> spec_fn(EntryView) -> StatsView {
    |e: EntryView| sample_of(e, m, now_ms)
}

/// The previous-sample state after recording every row of `kept` at
/// `now_ms`.
pub open spec fn updated_state(
    m: Map<Seq<char>, PrevSample>,
    kept: Seq<EntryView>,
    now_ms: u64,
) -> Map<Seq<char>, PrevSample>
    decreases kept.len(),
{
    if kept.len() == 0 {
        m
    } else {
        updated_state(m, kept.drop_last(), now_ms).insert(
            kept.last().name,
            PrevSample { rx: kept.last().rx, tx: kept.last().tx, at_ms: now_ms },
        )
    }
}

/// Whether the snapshot is sorted by name, ascending.
pub open spec fn sorted_by_name(s: Seq<StatsView>) -> bool {
    forall|i: int, j: int| 0 <= i < j < s.len() ==> lex_le((#[trigger] s[i]).name, (#[trigger] s[j]).name)
}

/// Whether no display name repeats in the snapshot.
pub open spec fn names_unique(s: Seq<StatsView>) -> bool {
    forall|i: int, j: int| 0 <= i < j < s.len() ==> (#[trigger] s[i]).name != (#[trigger] s[j]).name
}

/// A snapshot row's rates are exactly the counter deltas over the elapsed
/// time against the sample the state stores under its name, whenever the
/// clock advanced, the counters did not regress, and the quotients are
/// representable; rates are never negative.
pub proof fn lemma_sample_rate_from_state(e: EntryView, m: Map<Seq<char>, PrevSample>, now_ms: u64)
    requires
        m.contains_key(e.name),
        now_ms > m[e.name].at_ms,
        e.rx >= m[e.name].rx,
        e.tx >= m[e.name].tx,
        (e.rx - m[e.name].rx) * 1000 / (now_ms - m[e.name].at_ms) <= u64::MAX,
        (e.tx - m[e.name].tx) * 1000 / (now_ms - m[e.name].at_ms) <= u64::MAX,
    ensures
        sample_of(e, m, now_ms).down == (e.rx - m[e.name].rx) * 1000 / (now_ms - m[e.name].at_ms),
        sample_of(e, m, now_ms).up == (e.tx - m[e.name].tx) * 1000 / (now_ms - m[e.name].at_ms),
        sample_of(e, m, now_ms).down >= 0,
        sample_of(e, m, now_ms).up >= 0,
{
    crate::rate::lemma_rate_is_delta_over_elapsed(m[e.name], e.rx, e.tx, now_ms);
}

/// Recording rows whose names all differ from `k` leaves the state's entry
/// for `k` untouched.
proof fn lemma_updated_state_untouched(
    m: Map<Seq<char>, PrevSample>,
    kept: Seq<EntryView>,
    now_ms: u64,
    k: Seq<char>,
)
    requires
        forall|l: int| 0 <= l < kept.len() ==> (#[trigger] kept[l]).name != k,
    ensures
        prev_lookup(updated_state(m, kept, now_ms), k) == prev_lookup(m, k),
    decreases kept.len(),
{
    if kept.len() > 0 {
        assert(forall|l: int|
            0 <= l < kept.drop_last().len() ==> (#[trigger] kept.drop_last()[l]).name != k);
        lemma_updated_state_untouched(m, kept.drop_last(), now_ms, k);
        assert(kept[kept.len() - 1].name != k);
    }
}

/// Computed speeds always fit in 64 bits.
proof fn lemma_speeds_fit(p: Option<PrevSample>, rx: u64, tx: u64, now_ms: u64)
    ensures
        speeds_of(p, rx, tx, now_ms).0 <= u64::MAX,
        speeds_of(p, rx, tx, now_ms).1 <= u64::MAX,
{
}

/// The snapshot rows for the already-classified rows `kept`, with the
/// previous-sample state read for the rates and then brought up to date.
fn build_samples(prev: &mut PrevSamples, kept: &Vec<RawCounterEntry>, now_ms: u64) -> (r: Vec<
    NetworkStats,
>)
    requires
        old(prev).wf(),
        forall|i: int, j: int|
            0 <= i < j < kept@.len() ==> (#[trigger] entry_views(kept@)[i]).name != (
            #[trigger] entry_views(kept@)[j]).name,
    ensures
        final(prev).wf(),
        final(prev)@ == updated_state(old(prev)@, entry_views(kept@), now_ms),
        stats_views(r@) == entry_views(kept@).map_values(sample_fn(old(prev)@, now_ms)),
{
    let ghost m0 = old(prev)@;
    let ghost keptv = entry_views(kept@);
    let n = kept.len();
    let mut out: Vec<NetworkStats> = Vec::new();
    let mut i: usize = 0;
    proof {
        assert(kept@.take(0) =~= Seq::<RawCounterEntry>::empty());
        assert(keptv.take(0) =~= Seq::<EntryView>::empty());
        assert(prev@ == updated_state(m0, keptv.take(0), now_ms));
        assert(stats_views(out@) =~= keptv.take(0).map_values(sample_fn(m0, now_ms)));
    }
    while i < n
        invariant
            prev.wf(),
            n == kept@.len(),
            i <= n,
            keptv == entry_views(kept@),
            forall|a: int, b: int|
                0 <= a < b < keptv.len() ==> (#[trigger] keptv[a]).name != (#[trigger] keptv[b]).name,
            prev@ == updated_state(m0, keptv.take(i as int), now_ms),
            stats_views(out@) == keptv.take(i as int).map_values(sample_fn(m0, now_ms)),
        decreases n - i,
    {
        let ghost ev = keptv[i as int];
        proof {
            assert(ev == kept@[i as int]@);
            assert(forall|l: int|
                0 <= l < keptv.take(i as int).len() ==> (#[trigger] keptv.take(i as int)[l]).name
                    != ev.name);
            lemma_updated_state_untouched(m0, keptv.take(i as int), now_ms, ev.name);
        }
        let p = prev.get(kept[i].name.as_str());
        let rates = compute_rates(p, kept[i].bytes_received, kept[i].bytes_transmitted, now_ms);
        let s = NetworkStats {
            name: kept[i].name.clone(),
            bytes_received: kept[i].bytes_received,
            bytes_transmitted: kept[i].bytes_transmitted,
            download_speed: rates.0,
            upload_speed: rates.1,
            is_active: kept[i].bytes_received > 0 || kept[i].bytes_transmitted > 0,
        };
        proof {
            lemma_speeds_fit(p, ev.rx, ev.tx, now_ms);
            assert(s@ == sample_of(ev, m0, now_ms));
        }
        let ghost out0 = out@;
        out.push(s);
        prev.upsert(
            kept[i].name.as_str(),
            PrevSample { rx: kept[i].bytes_received, tx: kept[i].bytes_transmitted, at_ms: now_ms },
        );
        i += 1;
        proof {
            assert(keptv.take(i as int) =~= keptv.take(i - 1).push(ev));
            assert(keptv.take(i as int).drop_last() =~= keptv.take(i - 1));
            assert(prev@ == updated_state(m0, keptv.take(i as int), now_ms));
            assert(stats_views(out@) =~= keptv.take(i - 1).map_values(sample_fn(m0, now_ms)).push(
                sample_of(ev, m0, now_ms),
            ));
            assert(stats_views(out@) =~= keptv.take(i as int).map_values(sample_fn(m0, now_ms)));
        }
    }
    proof {
        assert(keptv.take(n as int) =~= keptv);
    }
    out
}

/// The position in the name-sorted `out` at which a row named `name`
/// belongs: past every row that does not come after it.
fn insert_pos(out: &Vec<NetworkStats>, name: &str) -> (r: usize)
    ensures
        r <= out@.len(),
        forall|p: int| 0 <= p < r ==> lex_le((#[trigger] stats_views(out@)[p]).name, name@),
        r < out@.len() ==> !lex_le(stats_views(out@)[r as int].name, name@),
{
    let m = out.len();
    let mut pos: usize = 0;
    while pos < m
        invariant
            m == out@.len(),
            pos <= m,
            forall|p: int| 0 <= p < pos ==> lex_le((#[trigger] stats_views(out@)[p]).name, name@),
        decreases m - pos,
    {
        if !str_le(out[pos].name.as_str(), name) {
            return pos;
        }
        proof {
            assert(stats_views(out@)[pos as int].name == out@[pos as int].name@);
        }
        pos += 1;
    }
    pos
}

/// The rows of `v` in ascending name order: an insertion sort, since a
/// snapshot holds at most a handful of interfaces.
fn sort_by_name_exec(v: Vec<NetworkStats>) -> (r: Vec<NetworkStats>)
    ensures
        stats_views(r@).to_multiset() == stats_views(v@).to_multiset(),
        sorted_by_name(stats_views(r@)),
{
    let n = v.len();
    let mut out: Vec<NetworkStats> = Vec::new();
    let mut i: usize = 0;
    proof {
        assert(v@.take(0) =~= Seq::<NetworkStats>::empty());
        assert(stats_views(out@) =~= stats_views(v@.take(0)));
    }
    while i < n
        invariant
            n == v@.len(),
            i <= n,
            stats_views(out@).to_multiset() == stats_views(v@.take(i as int)).to_multiset(),
            sorted_by_name(stats_views(out@)),
        decreases n - i,
    {
        let ghost ov = stats_views(out@);
        let ghost ev = v@[i as int]@;
        let pos = insert_pos(&out, v[i].name.as_str());
        let ghost posv = pos as int;
        let elem = NetworkStats {
            name: v[i].name.clone(),
            bytes_received: v[i].bytes_received,
            bytes_transmitted: v[i].bytes_transmitted,
            download_speed: v[i].download_speed,
            upload_speed: v[i].upload_speed,
            is_active: v[i].is_active,
        };
        proof {
            assert(elem@ == ev);
        }
        out.insert(pos, elem);
        i += 1;
        proof {
            broadcast use to_multiset_build, to_multiset_insert;

            assert(stats_views(out@) =~= ov.insert(posv, ev));
            assert(stats_views(v@.take(i as int)) =~= stats_views(v@.take(i - 1)).push(ev));
            assert(ov.insert(posv, ev).to_multiset() == ov.to_multiset().insert(ev));
            assert(stats_views(v@.take(i as int)).to_multiset() == stats_views(
                v@.take(i - 1),
            ).to_multiset().insert(ev));
            assert forall|a: int, b: int|
                0 <= a < b < ov.insert(posv, ev).len() implies lex_le(
                (#[trigger] ov.insert(posv, ev)[a]).name,
                (#[trigger] ov.insert(posv, ev)[b]).name,
            ) by {
                ov.insert_ensures(posv, ev);
                if b < posv {
                    assert(lex_le(ov[a].name, ov[b].name));
                } else if a < posv && b == posv {
                    assert(lex_le(ov[a].name, ev.name));
                } else if a < posv && b > posv {
                    assert(lex_le(ov[a].name, ov[b - 1].name));
                } else if a == posv {
                    assert(posv < ov.len());
                    assert(!lex_le(ov[posv].name, ev.name));
                    lemma_lex_le_total(ov[posv].name, ev.name);
                    assert(lex_le(ev.name, ov[posv].name));
                    if b - 1 > posv {
                        assert(lex_le(ov[posv].name, ov[b - 1].name));
                        lemma_lex_le_transitive(ev.name, ov[posv].name, ov[b - 1].name);
                    }
                } else {
                    assert(lex_le(ov[a - 1].name, ov[b - 1].name));
                }
            }
        }
    }
    proof {
        assert(v@.take(n as int) =~= v@);
    }
    out
}

/// Two index positions of one value give it multiplicity at least two.
proof fn lemma_dup_element_count(s: Seq<StatsView>, i: int, j: int)
    requires
        0 <= i < j < s.len(),
        s[i] == s[j],
    ensures
        s.to_multiset().count(s[i]) >= 2,
{
    broadcast use vstd::seq_lib::to_multiset_remove, vstd::seq_lib::group_to_multiset_ensures;

    let rest = s.remove(i);
    assert(rest.to_multiset() == s.to_multiset().remove(s[i]));
    assert(rest[j - 1] == s[j]);
    assert(rest.contains(s[i]));
    assert(rest.to_multiset().count(s[i]) > 0);
}

/// A multiset-equal rearrangement of a snapshot with pairwise distinct
/// names again has pairwise distinct names.
proof fn lemma_permutation_names_unique(a: Seq<StatsView>, b: Seq<StatsView>)
    requires
        a.to_multiset() == b.to_multiset(),
        names_unique(a),
    ensures
        names_unique(b),
{
    broadcast use vstd::seq_lib::to_multiset_remove, vstd::seq_lib::group_to_multiset_ensures;

    assert forall|i: int, j: int| 0 <= i < j < b.len() implies (#[trigger] b[i]).name != (
    #[trigger] b[j]).name by {
        if b[i].name == b[j].name {
            if b[i] == b[j] {
                lemma_dup_element_count(b, i, j);
                assert(a.to_multiset().count(b[i]) >= 2);
                assert(a.contains(b[i]));
                let x = choose|x: int| 0 <= x < a.len() && a[x] == b[i];
                let arest = a.remove(x);
                assert(arest.to_multiset() == a.to_multiset().remove(a[x]));
                assert(arest.to_multiset().count(b[i]) >= 1);
                assert(arest.contains(b[i]));
                let y = choose|y: int| 0 <= y < arest.len() && arest[y] == b[i];
                if y < x {
                    assert(a[y] == arest[y]);
                    assert(a[y].name == a[x].name);
                } else {
                    assert(a[y + 1] == arest[y]);
                    assert(a[y + 1].name == a[x].name);
                }
            } else {
                assert(b.contains(b[i])) by {
                    assert(b[i] == b[i]);
                }
                assert(b.contains(b[j])) by {
                    assert(b[j] == b[j]);
                }
                assert(a.contains(b[i]));
                assert(a.contains(b[j]));
                let x = choose|x: int| 0 <= x < a.len() && a[x] == b[i];
                let y = choose|y: int| 0 <= y < a.len() && a[y] == b[j];
                assert(x != y);
                assert(a[x].name == a[y].name);
            }
        }
    }
}

/// Whether one poll step over the rows `entries` at clock reading `now_ms`
/// under the given virtual-adapter policy turns the state `m0` into `m1`
/// and produces the snapshot rows `r` (up to the sorted order `r` is in).
pub open spec fn poll_outcome(
    m0: Map<Seq<char>, PrevSample>,
    m1: Map<Seq<char>, PrevSample>,
    r: Seq<StatsView>,
    show_virtual: bool,
    entries: Seq<EntryView>,
    now_ms: u64,
) -> bool {
    let kept = classify_spec(entries, show_virtual);
    &&& m1 == updated_state(m0, kept, now_ms)
    &&& r.to_multiset() == kept.map_values(sample_fn(m0, now_ms)).to_multiset()
}

/// The telemetry core: owns the previous-sample state and, on each poll,
/// turns raw counter rows into a deduplicated, rate-annotated, name-sorted
/// snapshot.
pub struct NetworkMonitor {
    prev: PrevSamples,
}

impl View for NetworkMonitor {
    type V = Map<Seq<char>, PrevSample>;

    closed spec fn view(&self) -> Map<Seq<char>, PrevSample> {
        self.prev@
    }
}

impl NetworkMonitor {
    /// The store's names are pairwise distinct.
    pub closed spec fn wf(&self) -> bool {
        self.prev.wf()
    }

    /// A monitor with no previous observations: the first poll reports
    /// rate zero for every interface.
    pub fn new() -> (r: NetworkMonitor)
        ensures
            r.wf(),
            r@ == Map::<Seq<char>, PrevSample>::empty(),
    {
        NetworkMonitor { prev: PrevSamples::new() }
    }

    /// One poll step over the given raw rows at the given clock reading:
    /// classify the rows, compute each survivor's rates against the stored
    /// previous samples, record the new samples, and return the snapshot
    /// sorted by name.
    pub fn refresh_with(
        &mut self,
        entries: &Vec<RawCounterEntry>,
        now_ms: u64,
        show_virtual: bool,
    ) -> (r: Vec<NetworkStats>)
        requires
            old(self).wf(),
        ensures
            final(self).wf(),
            final(self)@ == updated_state(
                old(self)@,
                classify_spec(entry_views(entries@), show_virtual),
                now_ms,
            ),
            stats_views(r@).to_multiset() == classify_spec(
                entry_views(entries@),
                show_virtual,
            ).map_values(sample_fn(old(self)@, now_ms)).to_multiset(),
            sorted_by_name(stats_views(r@)),
            names_unique(stats_views(r@)),
    {
        let ghost m0 = self@;
        let ghost kv = classify_spec(entry_views(entries@), show_virtual);
        let kept = classify(entries, show_virtual);
        proof {
            lemma_classify_names_unique(entry_views(entries@), show_virtual);
        }
        let samples = build_samples(&mut self.prev, &kept, now_ms);
        proof {
            assert(names_unique(stats_views(samples@))) by {
                assert(forall|i: int|
                    0 <= i < kv.len() ==> (#[trigger] stats_views(samples@)[i]).name
                        == kv[i].name);
            }
        }
        let sorted = sort_by_name_exec(samples);
        proof {
            lemma_permutation_names_unique(stats_views(samples@), stats_views(sorted@));
        }
        sorted
    }

    /// One poll step over both counter sources at the given clock
    /// reading: the platform rows' counters override the generic rows'
    /// where a name matches, and the reconciled rows go through the usual
    /// poll step. An empty platform table (the source failed or does not
    /// apply) leaves every generic row unchanged, so the fallback is
    /// silent.
    pub fn refresh_reconciled(
        &mut self,
        generic: &Vec<RawCounterEntry>,
        platform: &Vec<RawCounterEntry>,
        now_ms: u64,
        show_virtual: bool,
    ) -> (r: Vec<NetworkStats>)
        requires
            old(self).wf(),
        ensures
            final(self).wf(),
            final(self)@ == updated_state(
                old(self)@,
                classify_spec(
                    merge_spec(entry_views(generic@), entry_views(platform@)),
                    show_virtual,
                ),
                now_ms,
            ),
            stats_views(r@).to_multiset() == classify_spec(
                merge_spec(entry_views(generic@), entry_views(platform@)),
                show_virtual,
            ).map_values(sample_fn(old(self)@, now_ms)).to_multiset(),
            sorted_by_name(stats_views(r@)),
            names_unique(stats_views(r@)),
    {
        let merged = merge(generic, platform);
        self.refresh_with(&merged, now_ms, show_virtual)
    }

    /// One poll: read the generic counter source and the clock, and hand
    /// the rows to the verified poll step. Whatever the host returned, the
    /// outcome is that of the verified poll step on some rows and clock
    /// reading, and the snapshot is sorted by name with pairwise distinct
    /// names; on total source failure the row list is empty and so is the
    /// snapshot.
    pub fn refresh(&mut self, show_virtual: bool) -> (r: Vec<NetworkStats>)
        requires
            old(self).wf(),
        ensures
            final(self).wf(),
            sorted_by_name(stats_views(r@)),
            names_unique(stats_views(r@)),
            exists|entries: Seq<EntryView>, now_ms: u64|
                poll_outcome(
                    old(self)@,
                    final(self)@,
                    stats_views(r@),
                    show_virtual,
                    entries,
                    now_ms,
                ),
    {
        let entries = generic_counters();
        let now = now_millis();
        let out = self.refresh_with(&entries, now, show_virtual);
        proof {
            assert(poll_outcome(
                old(self)@,
                self@,
                stats_views(out@),
                show_virtual,
                entry_views(entries@),
                now,
            ));
        }
        out
    }
}

} // verus!

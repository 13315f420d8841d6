//! Reconciliation of the generic counter source with a platform-specific
//! one.
//!
//! The generic enumeration decides which interfaces exist; where the
//! platform table has a row whose name matches — exactly, or by substring
//! containment in either direction to bridge naming divergence — the
//! platform counters override the generic ones.

use vstd::prelude::*;

use crate::chars::{chars_eq, contains_chars, contains_seq, str_chars};
use crate::entry::{entry_views, EntryView, RawCounterEntry};

verus! {

/// Whether the two names match by containment in either direction.
pub open spec fn name_overlaps(a: Seq<char>, b: Seq<char>) -> bool {
    contains_seq(a, b) || contains_seq(b, a)
}

/// Whether `i` is the earliest platform row whose name equals `gname`.
pub open spec fn is_first_exact(plats: Seq<EntryView>, gname: Seq<char>, i: int) -> bool {
    &&& 0 <= i < plats.len()
    &&& plats[i].name == gname
    &&& forall|j: int| 0 <= j < i ==> (#[trigger] plats[j]).name != gname
}

/// Whether `i` is the earliest platform row whose name overlaps `gname`.
pub open spec fn is_first_overlap(plats: Seq<EntryView>, gname: Seq<char>, i: int) -> bool {
    &&& 0 <= i < plats.len()
    &&& name_overlaps(plats[i].name, gname)
    &&& forall|j: int| 0 <= j < i ==> !name_overlaps((#[trigger] plats[j]).name, gname)
}

/// `g` with its counters replaced by `p`'s.
pub open spec fn with_counters(g: EntryView, p: EntryView) -> EntryView {
    EntryView { name: g.name, friendly: g.friendly, rx: p.rx, tx: p.tx }
}

/// The authoritative row for the generically-enumerated row `g`: the
/// counters of the earliest exactly-matching platform row, else of the
/// earliest overlapping one, else `g` unchanged.
pub open spec fn merged_entry(g: EntryView, plats: Seq<EntryView>) -> EntryView {
    if exists|i: int| is_first_exact(plats, g.name, i) {
        let i = choose|i: int| is_first_exact(plats, g.name, i);
        with_counters(g, plats[i])
    } else if exists|i: int| is_first_overlap(plats, g.name, i) {
        let i = choose|i: int| is_first_overlap(plats, g.name, i);
        with_counters(g, plats[i])
    } else {
        g
    }
}

/// The authoritative rows for all generically-enumerated rows.
pub open spec fn merge_spec(gen: Seq<EntryView>, plats: Seq<EntryView>) -> Seq<EntryView> {
    Seq::new(gen.len(), |i: int| merged_entry(gen[i], plats))
}

/// The earliest platform row whose name equals `gname`, if any.
fn find_exact(plats: &Vec<RawCounterEntry>, gname: &Vec<char>) -> (r: Option<usize>)
    ensures
        match r {
            Option::Some(j) => is_first_exact(entry_views(plats@), gname@, j as int),
            Option::None => forall|j: int|
                0 <= j < plats@.len() ==> (#[trigger] entry_views(plats@)[j]).name != gname@,
        },
{
    let n = plats.len();
    let mut j: usize = 0;
    while j < n
        invariant
            n == plats@.len(),
            j <= n,
            forall|j2: int| 0 <= j2 < j ==> (#[trigger] entry_views(plats@)[j2]).name != gname@,
        decreases n - j,
    {
        let pn = str_chars(plats[j].name.as_str());
        if chars_eq(&pn, gname) {
            return Some(j);
        }
        j += 1;
    }
    None
}

/// The earliest platform row whose name overlaps `gname`, if any.
fn find_overlap(plats: &Vec<RawCounterEntry>, gname: &Vec<char>) -> (r: Option<usize>)
    ensures
        match r {
            Option::Some(j) => is_first_overlap(entry_views(plats@), gname@, j as int),
            Option::None => forall|j: int|
                0 <= j < plats@.len() ==> !name_overlaps(
                    (#[trigger] entry_views(plats@)[j]).name,
                    gname@,
                ),
        },
{
    let n = plats.len();
    let mut j: usize = 0;
    while j < n
        invariant
            n == plats@.len(),
            j <= n,
            forall|j2: int|
                0 <= j2 < j ==> !name_overlaps((#[trigger] entry_views(plats@)[j2]).name, gname@),
        decreases n - j,
    {
        let pn = str_chars(plats[j].name.as_str());
        if contains_chars(&pn, gname) || contains_chars(gname, &pn) {
            return Some(j);
        }
        j += 1;
    }
    None
}

/// One authoritative counter row per generically-enumerated interface:
/// each generic row keeps its names, with the counters of the earliest
/// matching platform row — matching exactly first, then by containment in
/// either direction — or its own counters when no platform row matches.
pub fn merge(generic: &Vec<RawCounterEntry>, platform: &Vec<RawCounterEntry>) -> (r: Vec<
    RawCounterEntry,
>)
    ensures
        entry_views(r@) == merge_spec(entry_views(generic@), entry_views(platform@)),
{
    let n = generic.len();
    let mut out: Vec<RawCounterEntry> = Vec::new();
    let mut i: usize = 0;
    while i < n
        invariant
            n == generic@.len(),
            i <= n,
            out@.len() == i,
            forall|i2: int|
                0 <= i2 < i ==> #[trigger] entry_views(out@)[i2] == merged_entry(
                    entry_views(generic@)[i2],
                    entry_views(platform@),
                ),
        decreases n - i,
    {
        let ghost gv = entry_views(generic@)[i as int];
        let ghost plats = entry_views(platform@);
        let gname = str_chars(generic[i].name.as_str());
        let counters: (u64, u64) = match find_exact(platform, &gname) {
            Option::Some(j) => {
                proof {
                    assert(is_first_exact(plats, gv.name, j as int));
                    let w = choose|w: int| is_first_exact(plats, gv.name, w);
                    assert(w == j as int);
                }
                (platform[j].bytes_received, platform[j].bytes_transmitted)
            },
            Option::None => {
                match find_overlap(platform, &gname) {
                    Option::Some(j) => {
                        proof {
                            assert(is_first_overlap(plats, gv.name, j as int));
                            assert(!(exists|w: int| is_first_exact(plats, gv.name, w)));
                            let w = choose|w: int| is_first_overlap(plats, gv.name, w);
                            assert(w == j as int);
                        }
                        (platform[j].bytes_received, platform[j].bytes_transmitted)
                    },
                    Option::None => (generic[i].bytes_received, generic[i].bytes_transmitted),
                }
            },
        };
        let e = RawCounterEntry {
            name: generic[i].name.clone(),
            friendly_name: generic[i].friendly_name.clone(),
            bytes_received: counters.0,
            bytes_transmitted: counters.1,
        };
        proof {
            assert(e@ == merged_entry(gv, plats));
        }
        let ghost out0 = out@;
        let ghost ev = e@;
        out.push(e);
        i += 1;
        proof {
            assert(entry_views(out@) =~= entry_views(out0).push(ev));
        }
    }
    proof {
        assert(entry_views(out@) =~= merge_spec(entry_views(generic@), entry_views(platform@)));
    }
    out
}

} // verus!

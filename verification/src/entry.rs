//! The raw per-interface counter record that every counter source yields.

use vstd::prelude::*;

verus! {

/// One raw row from a counter source: a system name, a human-friendly
/// display name (equal to the system name where the source has no separate
/// alias), and the cumulative byte counters.
#[derive(Clone, Debug)]
pub struct RawCounterEntry {
    pub name: String,
    pub friendly_name: String,
    pub bytes_received: u64,
    pub bytes_transmitted: u64,
}

/// The mathematical image of a raw counter row.
pub ghost struct EntryView {
    pub name: Seq<char>,
    pub friendly: Seq<char>,
    pub rx: u64,
    pub tx: u64,
}

impl View for RawCounterEntry {
    type V = EntryView;

    open spec fn view(&self) -> EntryView {
        EntryView {
            name: self.name@,
            friendly: self.friendly_name@,
            rx: self.bytes_received,
            tx: self.bytes_transmitted,
        }
    }
}

/// The views of a sequence of raw rows, in order.
pub open spec fn entry_views(s: Seq<RawCounterEntry>) -> Seq<EntryView> {
    s.map_values(|e: RawCounterEntry| e@)
}

} // verus!

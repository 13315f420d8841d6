//! The previous-sample state: a process-lifetime mapping from interface
//! name to the counters and timestamp of its last observation.
//!
//! Entries are created on the first observation of a name and updated on
//! every later poll; nothing is ever evicted (the entry count is bounded by
//! the host's real interfaces). The store is an association list with
//! pairwise distinct names, read through its `Map` view.

use vstd::prelude::*;

use crate::chars::str_eq;
use crate::rate::PrevSample;

verus! {

/// One remembered observation, keyed by the interface name.
pub struct SampleRecord {
    pub name: String,
    pub sample: PrevSample,
}

/// The names of the records, in order.
pub open spec fn record_names(s: Seq<SampleRecord>) -> Seq<Seq<char>> {
    s.map_values(|r: SampleRecord| r.name@)
}

/// The map the records denote, later records overriding earlier ones.
pub open spec fn map_of(s: Seq<SampleRecord>) -> Map<Seq<char>, PrevSample>
    decreases s.len(),
{
    if s.len() == 0 {
        Map::empty()
    } else {
        map_of(s.drop_last()).insert(s.last().name@, s.last().sample)
    }
}

/// The stored observation for `k`, if one exists.
pub open spec fn prev_lookup(m: Map<Seq<char>, PrevSample>, k: Seq<char>) -> Option<PrevSample> {
    if m.contains_key(k) {
        Some(m[k])
    } else {
        None
    }
}

/// The previous-sample store.
pub struct PrevSamples {
    records: Vec<SampleRecord>,
}

impl View for PrevSamples {
    type V = Map<Seq<char>, PrevSample>;

    closed spec fn view(&self) -> Map<Seq<char>, PrevSample> {
        map_of(self.records@)
    }
}

/// A name is in the denoted map exactly when some record carries it.
proof fn lemma_map_of_contains(s: Seq<SampleRecord>, k: Seq<char>)
    ensures
        map_of(s).contains_key(k) == record_names(s).contains(k),
    decreases s.len(),
{
    if s.len() > 0 {
        lemma_map_of_contains(s.drop_last(), k);
        assert(record_names(s.drop_last()) =~= record_names(s).drop_last());
        if record_names(s).drop_last().contains(k) {
            let i = choose|i: int|
                0 <= i < record_names(s).drop_last().len() && record_names(s).drop_last()[i] == k;
            assert(record_names(s)[i] == k);
        }
        if s.last().name@ == k {
            assert(record_names(s)[s.len() - 1] == k);
        }
        if record_names(s).contains(k) {
            let i = choose|i: int| 0 <= i < record_names(s).len() && record_names(s)[i] == k;
            if i < s.len() - 1 {
                assert(record_names(s).drop_last()[i] == k);
            }
        }
    }
}

/// With distinct names, each record's sample is what the map holds under
/// its name.
proof fn lemma_map_of_value(s: Seq<SampleRecord>, i: int)
    requires
        record_names(s).no_duplicates(),
        0 <= i < s.len(),
    ensures
        map_of(s).contains_key(s[i].name@),
        map_of(s)[s[i].name@] == s[i].sample,
    decreases s.len(),
{
    assert(record_names(s)[i] == s[i].name@);
    if i < s.len() - 1 {
        assert(record_names(s.drop_last()) =~= record_names(s).drop_last());
        lemma_map_of_value(s.drop_last(), i);
        assert(record_names(s)[s.len() - 1] == s.last().name@);
        assert(s.last().name@ != s[i].name@);
    }
}

/// Replacing the record at `j` by one with the same name denotes the map
/// with that name's sample replaced.
proof fn lemma_map_of_update(s: Seq<SampleRecord>, j: int, rec: SampleRecord)
    requires
        record_names(s).no_duplicates(),
        0 <= j < s.len(),
        rec.name@ == s[j].name@,
    ensures
        map_of(s.update(j, rec)) == map_of(s).insert(rec.name@, rec.sample),
    decreases s.len(),
{
    if j == s.len() - 1 {
        assert(s.update(j, rec).drop_last() =~= s.drop_last());
        assert(s.update(j, rec).last() == rec);
        assert(map_of(s.drop_last()).insert(rec.name@, rec.sample) =~= map_of(s.drop_last()).insert(
            s.last().name@,
            s.last().sample,
        ).insert(rec.name@, rec.sample));
    } else {
        assert(record_names(s.drop_last()) =~= record_names(s).drop_last());
        lemma_map_of_update(s.drop_last(), j, rec);
        assert(s.update(j, rec).drop_last() =~= s.drop_last().update(j, rec));
        assert(s.update(j, rec).last() == s.last());
        assert(record_names(s)[j] == s[j].name@);
        assert(record_names(s)[s.len() - 1] == s.last().name@);
        assert(s.last().name@ != rec.name@);
        assert(map_of(s.drop_last()).insert(rec.name@, rec.sample).insert(
            s.last().name@,
            s.last().sample,
        ) =~= map_of(s.drop_last()).insert(s.last().name@, s.last().sample).insert(
            rec.name@,
            rec.sample,
        ));
    }
}

impl PrevSamples {
    /// No interface name repeats among the records.
    pub closed spec fn wf(&self) -> bool {
        record_names(self.records@).no_duplicates()
    }

    /// An empty store.
    pub fn new() -> (r: PrevSamples)
        ensures
            r@ == Map::<Seq<char>, PrevSample>::empty(),
            r.wf(),
    {
        let r = PrevSamples { records: Vec::new() };
        proof {
            assert(record_names(r.records@) =~= Seq::<Seq<char>>::empty());
        }
        r
    }

    /// The stored observation for `name`, if one exists.
    pub fn get(&self, name: &str) -> (r: Option<PrevSample>)
        requires
            self.wf(),
        ensures
            r == prev_lookup(self@, name@),
    {
        let n = self.records.len();
        let mut j: usize = 0;
        while j < n
            invariant
                self.wf(),
                n == self.records@.len(),
                j <= n,
                forall|j2: int| 0 <= j2 < j ==> #[trigger] record_names(self.records@)[j2] != name@,
            decreases n - j,
        {
            if str_eq(self.records[j].name.as_str(), name) {
                proof {
                    lemma_map_of_value(self.records@, j as int);
                }
                return Some(self.records[j].sample);
            }
            proof {
                assert(record_names(self.records@)[j as int] == self.records@[j as int].name@);
            }
            j += 1;
        }
        proof {
            lemma_map_of_contains(self.records@, name@);
            if record_names(self.records@).contains(name@) {
                let i = choose|i: int|
                    0 <= i < record_names(self.records@).len() && record_names(self.records@)[i]
                        == name@;
                assert(false);
            }
        }
        None
    }

    /// Record the observation for `name`, replacing any stored one.
    pub fn upsert(&mut self, name: &str, sample: PrevSample)
        requires
            old(self).wf(),
        ensures
            final(self).wf(),
            final(self)@ == old(self)@.insert(name@, sample),
    {
        let n = self.records.len();
        let mut j: usize = 0;
        while j < n
            invariant
                self == old(self),
                self.wf(),
                n == self.records@.len(),
                j <= n,
                forall|j2: int| 0 <= j2 < j ==> #[trigger] record_names(self.records@)[j2] != name@,
            decreases n - j,
        {
            if str_eq(self.records[j].name.as_str(), name) {
                let rec = SampleRecord { name: String::from_str(name), sample };
                proof {
                    lemma_map_of_update(self.records@, j as int, rec);
                    assert(record_names(self.records@.update(j as int, rec)) =~= record_names(
                        self.records@,
                    ).update(j as int, rec.name@));
                    assert(record_names(self.records@).update(j as int, rec.name@) =~= record_names(
                        self.records@,
                    ));
                }
                self.records.set(j, rec);
                return ;
            }
            proof {
                assert(record_names(self.records@)[j as int] == self.records@[j as int].name@);
            }
            j += 1;
        }
        let rec = SampleRecord { name: String::from_str(name), sample };
        proof {
            assert(self.records@.push(rec).drop_last() =~= self.records@);
            assert(record_names(self.records@.push(rec)) =~= record_names(self.records@).push(
                name@,
            ));
            let names = record_names(self.records@);
            assert forall|a: int, b: int|
                0 <= a < b < names.push(name@).len() implies names.push(name@)[a] != names.push(
                name@,
            )[b] by {
                if b == names.len() {
                    assert(names.push(name@)[a] == names[a]);
                } else {
                    assert(names[a] != names[b]);
                }
            }
        }
        self.records.push(rec);
    }
}

} // verus!

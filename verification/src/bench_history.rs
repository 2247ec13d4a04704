//! A time series of benchmark runs.
use vstd::prelude::*;
use chrono::{DateTime, Utc};
use std::time::SystemTime;
use crate::bench_result::{
    BenchResult, first_index_of, first_named, first_position, names_of, lemma_first_index_of,
};

verus! {

/// A point in time in UTC: whole seconds since the Unix epoch and the
/// nanoseconds past that second.
#[derive(Debug, Clone, Copy, PartialEq, Eq)]
pub struct Timestamp {
    pub secs: i64,
    pub nanos: u32,
}

/// The current time: the system clock (`std::time::SystemTime::now`)
/// converted by chrono's `From<SystemTime> for DateTime<Utc>`, as seconds
/// since the Unix epoch (`DateTime::timestamp`, negative before it) and the
/// nanoseconds past that second (`DateTime::timestamp_subsec_nanos`).
///
/// The value is the clock's; what is claimed holds of any reading: the
/// conversion splits the clock's offset from the epoch into whole seconds
/// and a sub-second part below one billion nanoseconds, also for a clock
/// set before the epoch. The conversion unwraps chrono's range check: it
/// panics for a clock reading outside the years chrono represents (about
/// 262,000 years either side of year 0), which no argument can rule out.
#[verifier::external_body]
fn now() -> (t: Timestamp)
    ensures
        t.nanos < 1_000_000_000,
{
    let t: DateTime<Utc> = DateTime::from(SystemTime::now());
    Timestamp { secs: t.timestamp(), nanos: t.timestamp_subsec_nanos() }
}

/// A timestamped snapshot of benchmark results.
#[derive(Debug, Clone)]
pub struct HistoryEntry<M> {
    pub timestamp: Timestamp,
    pub label: Option<String>,
    pub results: Vec<BenchResult<M>>,
}

/// The last entry of `entries`, when there is one.
pub open spec fn latest_entry<M>(entries: Seq<HistoryEntry<M>>) -> Option<HistoryEntry<M>> {
    if entries.len() >= 1 {
        Some(entries.last())
    } else {
        None
    }
}

/// The second-to-last entry of `entries`, when there is one.
pub open spec fn previous_entry<M>(entries: Seq<HistoryEntry<M>>) -> Option<HistoryEntry<M>> {
    if entries.len() >= 2 {
        Some(entries[entries.len() - 2])
    } else {
        None
    }
}

/// For each entry that has a result named `name`, in order: the entry's
/// timestamp and its first result with that name.
pub open spec fn history_for<M>(entries: Seq<HistoryEntry<M>>, name: Seq<char>) -> Seq<
    (Timestamp, BenchResult<M>),
> {
    entries.filter_map(
        |e: HistoryEntry<M>|
            match first_named(e.results@, name) {
                Some(r) => Some((e.timestamp, r)),
                None => None,
            },
    )
}

/// The entries of `entries` that have a result named `name`, in order.
pub open spec fn entries_with<M>(entries: Seq<HistoryEntry<M>>, name: Seq<char>) -> Seq<HistoryEntry<M>> {
    entries.filter(|e: HistoryEntry<M>| names_of(e.results@).contains(name))
}

proof fn lemma_history_for<M>(entries: Seq<HistoryEntry<M>>, name: Seq<char>)
    ensures
        history_for(entries, name).len() == entries_with(entries, name).len(),
        forall|k: int|
            0 <= k < history_for(entries, name).len() ==> #[trigger] history_for(entries, name)[k] == (
                entries_with(entries, name)[k].timestamp,
                first_named(entries_with(entries, name)[k].results@, name)->0,
            ),
    decreases entries.len(),
{
    reveal(Seq::filter);
    if entries.len() > 0 {
        let rest = entries.drop_last();
        let e = entries.last();
        lemma_history_for(rest, name);
        lemma_first_index_of(names_of(e.results@), name);
        let h = history_for(entries, name);
        let hr = history_for(rest, name);
        let w = entries_with(entries, name);
        let wr = entries_with(rest, name);
        if names_of(e.results@).contains(name) {
            assert(w == wr.push(e));
            assert(h == hr + seq![(e.timestamp, first_named(e.results@, name)->0)]);
            assert forall|k: int| 0 <= k < h.len() implies #[trigger] h[k] == (
                w[k].timestamp,
                first_named(w[k].results@, name)->0,
            ) by {
                if k < hr.len() {
                    assert(h[k] == hr[k]);
                    assert(w[k] == wr[k]);
                }
            }
        } else {
            assert(w == wr);
            assert(h == hr);
        }
    }
}

/// The history of a benchmark has one pair for every entry that has a
/// result with its name, whatever the entry's label, in the entries'
/// order: the entry's timestamp, and the first of the entry's results with
/// that name.
pub proof fn law_history_for_every_entry_with_the_name<M>(entries: Seq<HistoryEntry<M>>, name: Seq<char>)
    ensures
        history_for(entries, name).len() == entries_with(entries, name).len(),
        forall|k: int|
            0 <= k < history_for(entries, name).len() ==> {
                let e = entries_with(entries, name)[k];
                let p = #[trigger] history_for(entries, name)[k];
                &&& p.0 == e.timestamp
                &&& exists|i: int|
                    0 <= i < e.results@.len() && e.results@[i] == p.1 && p.1.name@ == name
                        && forall|j: int| 0 <= j < i ==> e.results@[j].name@ != name
            },
{
    lemma_history_for(entries, name);
    assert forall|k: int| 0 <= k < history_for(entries, name).len() implies {
        let e = entries_with(entries, name)[k];
        let p = #[trigger] history_for(entries, name)[k];
        &&& p.0 == e.timestamp
        &&& exists|i: int|
            0 <= i < e.results@.len() && e.results@[i] == p.1 && p.1.name@ == name
                && forall|j: int| 0 <= j < i ==> e.results@[j].name@ != name
    } by {
        let e = entries_with(entries, name)[k];
        let p = history_for(entries, name)[k];
        broadcast use vstd::seq_lib::group_filter_ensures;
        assert(names_of(e.results@).contains(name));
        lemma_first_index_of(names_of(e.results@), name);
        let i = first_index_of(names_of(e.results@), name)->0;
        assert(e.results@[i] == p.1);
        assert(names_of(e.results@)[i] == name);
        assert forall|j: int| 0 <= j < i implies e.results@[j].name@ != name by {
            assert(names_of(e.results@)[j] != name);
        }
    }
}

/// After an entry is added, it is the latest entry, the entry that was
/// latest before is the previous one, and there is one entry more.
pub proof fn law_latest_after_add<M>(before: Seq<HistoryEntry<M>>, after: Seq<HistoryEntry<M>>, entry: HistoryEntry<M>)
    requires
        after == before.push(entry),
    ensures
        latest_entry(after) == Some(entry),
        previous_entry(after) == latest_entry(before),
        after.len() == before.len() + 1,
{
}

/// Stores historical bench results and tracks them over time.
#[derive(Debug, Clone)]
pub struct BenchHistory<M> {
    pub entries: Vec<HistoryEntry<M>>,
}

impl<M> BenchHistory<M> {
    /// An empty history.
    pub fn new() -> (r: Self)
        ensures
            r.entries@ == Seq::<HistoryEntry<M>>::empty(),
    {
        BenchHistory { entries: Vec::new() }
    }

    /// Add a new entry with the current timestamp.
    pub fn add(&mut self, results: Vec<BenchResult<M>>, label: Option<String>)
        ensures
            final(self).entries@.last().timestamp.nanos < 1_000_000_000,
            final(self).entries@ == old(self).entries@.push(
                (HistoryEntry { timestamp: final(self).entries@.last().timestamp, label, results }),
            ),
    {
        let timestamp = now();
        self.add_at(timestamp, results, label);
    }

    /// Add a new entry with the given timestamp.
    pub fn add_at(&mut self, timestamp: Timestamp, results: Vec<BenchResult<M>>, label: Option<String>)
        ensures
            final(self).entries@ == old(self).entries@.push(
                (HistoryEntry { timestamp, label, results }),
            ),
    {
        self.entries.push(HistoryEntry { timestamp, label, results });
    }

    /// Get the latest entry.
    pub fn latest(&self) -> (r: Option<&HistoryEntry<M>>)
        ensures
            r matches Some(e) ==> latest_entry(self.entries@) == Some(*e),
            r is None ==> latest_entry(self.entries@) is None,
    {
        let n = self.entries.len();
        if n >= 1 {
            Some(&self.entries[n - 1])
        } else {
            None
        }
    }

    /// Get the previous entry (second-to-last).
    pub fn previous(&self) -> (r: Option<&HistoryEntry<M>>)
        ensures
            r matches Some(e) ==> previous_entry(self.entries@) == Some(*e),
            r is None ==> previous_entry(self.entries@) is None,
    {
        let n = self.entries.len();
        if n >= 2 {
            Some(&self.entries[n - 2])
        } else {
            None
        }
    }

    /// Get all results for a specific benchmark name across history: for each
    /// entry that has one, the entry's timestamp and its first result with that name.
    pub fn get_history_for(&self, benchmark_name: &str) -> (r: Vec<(Timestamp, &BenchResult<M>)>)
        ensures
            r@.map_values(|p: (Timestamp, &BenchResult<M>)| (p.0, *p.1)) == history_for(
                self.entries@,
                benchmark_name@,
            ),
            r@.len() == entries_with(self.entries@, benchmark_name@).len(),
    {
        proof {
            lemma_history_for(self.entries@, benchmark_name@);
        }
        let ghost f = |e: HistoryEntry<M>|
            match first_named(e.results@, benchmark_name@) {
                Some(r) => Some((e.timestamp, r)),
                None => None,
            };
        let n = self.entries.len();
        let mut out: Vec<(Timestamp, &BenchResult<M>)> = Vec::new();
        assert(self.entries@.take(0) =~= Seq::<HistoryEntry<M>>::empty());
        for i in 0..n
            invariant
                n == self.entries@.len(),
                f == (|e: HistoryEntry<M>|
                    match first_named(e.results@, benchmark_name@) {
                        Some(r) => Some((e.timestamp, r)),
                        None => None,
                    }),
                out@.map_values(|p: (Timestamp, &BenchResult<M>)| (p.0, *p.1))
                    == self.entries@.take(i as int).filter_map(f),
        {
            proof {
                self.entries@.lemma_filter_map_take_succ(f, i as int);
            }
            let entry = &self.entries[i];
            proof {
                lemma_first_index_of(names_of(entry.results@), benchmark_name@);
            }
            match first_position(entry.results.as_slice(), benchmark_name) {
                Some(j) => {
                    out.push((entry.timestamp, &entry.results[j]));
                    assert(out@.map_values(|p: (Timestamp, &BenchResult<M>)| (p.0, *p.1))
                        =~= self.entries@.take(i + 1).filter_map(f));
                },
                None => {
                    assert(out@.map_values(|p: (Timestamp, &BenchResult<M>)| (p.0, *p.1))
                        =~= self.entries@.take(i + 1).filter_map(f));
                },
            }
        }
        assert(self.entries@.take(n as int) =~= self.entries@);
        out
    }

    /// Number of entries.
    pub fn len(&self) -> (r: usize)
        ensures
            r == self.entries@.len(),
    {
        self.entries.len()
    }

    /// Whether there are no entries.
    pub fn is_empty(&self) -> (r: bool)
        ensures
            r == (self.entries@.len() == 0),
    {
        self.entries.len() == 0
    }
}

impl<M> Default for BenchHistory<M> {
    fn default() -> (r: Self)
        ensures
            r.entries@ == Seq::<HistoryEntry<M>>::empty(),
    {
        Self::new()
    }
}

} // verus!

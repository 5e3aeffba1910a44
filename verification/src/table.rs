use crate::keys::{
    compare_keys, key_lt, lemma_key_lt_irreflexive, lemma_key_lt_total, lemma_key_lt_transitive,
    KeyOrder,
};
use crate::report::{is_report, lemma_report_is_report_of, report_of, report_view, row_of, Row};
use crate::stats::{City, Summary};
use crate::tally::{observed, Tally};
use vstd::prelude::*;
use vstd::slice::slice_to_vec;

verus! {

/// What the table keeps for one key.
struct Entry {
    key: Vec<u8>,
    stat: City,
}

/// The aggregation table: for each key that was observed, its running
/// statistic. The entries are kept in ascending order of their keys, so that
/// a key is found by bisection and the report needs no sorting.
pub struct Table {
    entries: Vec<Entry>,
}

/// Whether the keys of the entries ascend strictly.
spec fn ascending(entries: Seq<Entry>) -> bool {
    forall|i: int, j: int|
        0 <= i < j < entries.len() ==> key_lt(
            (#[trigger] entries[i]).key@,
            (#[trigger] entries[j]).key@,
        )
}

/// Whether some entry has the key.
spec fn has_key(entries: Seq<Entry>, key: Seq<u8>) -> bool {
    exists|i: int| 0 <= i < entries.len() && (#[trigger] entries[i]).key@ == key
}

/// Where the entry with the key stands.
spec fn position(entries: Seq<Entry>, key: Seq<u8>) -> int {
    choose|i: int| 0 <= i < entries.len() && (#[trigger] entries[i]).key@ == key
}

/// The keys of the entries, each with the statistic of its entry.
spec fn entries_tally(entries: Seq<Entry>) -> Tally {
    Map::new(
        |key: Seq<u8>| has_key(entries, key),
        |key: Seq<u8>| entries[position(entries, key)].stat@,
    )
}

/// Among ascending entries a key stands at one place only.
proof fn lemma_position(entries: Seq<Entry>, i: int)
    requires
        ascending(entries),
        0 <= i < entries.len(),
    ensures
        has_key(entries, entries[i].key@),
        position(entries, entries[i].key@) == i,
        entries_tally(entries)[entries[i].key@] == entries[i].stat@,
{
    lemma_key_lt_irreflexive(entries[i].key@);
}

impl View for Table {
    type V = Tally;

    closed spec fn view(&self) -> Tally {
        entries_tally(self.entries@)
    }
}

impl Table {
    /// Whether the table is in order: the keys ascend, and each statistic is
    /// valid and has at least one observation.
    pub closed spec fn wf(&self) -> bool {
        &&& ascending(self.entries@)
        &&& forall|i: int|
            0 <= i < self.entries@.len() ==> (#[trigger] self.entries@[i]).stat.wf()
                && self.entries@[i].stat@.count >= 1
    }

    /// An empty table.
    pub fn new() -> (table: Table)
        ensures
            table.wf(),
            table@ == Map::<Seq<u8>, Summary>::empty(),
    {
        Table { entries: Vec::new() }
    }

    /// How many keys the table holds.
    pub fn len(&self) -> (n: usize)
        requires
            self.wf(),
        ensures
            n == self@.dom().len(),
    {
        proof {
            self.lemma_len();
        }
        self.entries.len()
    }

    /// Where a key stands among the entries, or where it would have to go
    /// in: every entry before that place has a smaller key, and where the key
    /// is not found, every entry from that place on has a greater one.
    fn locate(&self, key: &[u8]) -> (r: (usize, bool))
        requires
            self.wf(),
        ensures
            r.0 <= self.entries@.len(),
            forall|i: int| 0 <= i < r.0 ==> key_lt((#[trigger] self.entries@[i]).key@, key@),
            r.1 ==> r.0 < self.entries@.len() && self.entries@[r.0 as int].key@ == key@,
            !r.1 ==> forall|i: int|
                r.0 <= i < self.entries@.len() ==> key_lt(
                    key@,
                    (#[trigger] self.entries@[i]).key@,
                ),
    {
        let mut low: usize = 0;
        let mut high: usize = self.entries.len();
        while low < high
            invariant
                low <= high <= self.entries@.len(),
                ascending(self.entries@),
                forall|i: int| 0 <= i < low ==> key_lt((#[trigger] self.entries@[i]).key@, key@),
                forall|i: int|
                    high <= i < self.entries@.len() ==> key_lt(
                        key@,
                        (#[trigger] self.entries@[i]).key@,
                    ),
            decreases high - low,
        {
            let mid = low + (high - low) / 2;
            let ghost here = self.entries@[mid as int].key@;
            match compare_keys(self.entries[mid].key.as_slice(), key) {
                KeyOrder::Before => {
                    assert forall|i: int| 0 <= i < mid + 1 implies key_lt(
                        (#[trigger] self.entries@[i]).key@,
                        key@,
                    ) by {
                        if i < mid {
                            lemma_key_lt_transitive(self.entries@[i].key@, here, key@);
                        }
                    }
                    low = mid + 1;
                },
                KeyOrder::Same => {
                    return (mid, true);
                },
                KeyOrder::After => {
                    proof {
                        lemma_key_lt_total(here, key@);
                    }
                    assert forall|i: int| mid <= i < self.entries@.len() implies key_lt(
                        key@,
                        (#[trigger] self.entries@[i]).key@,
                    ) by {
                        if mid < i {
                            lemma_key_lt_transitive(key@, here, self.entries@[i].key@);
                        }
                    }
                    high = mid;
                },
            }
        }
        (low, false)
    }

    /// The statistic of a key, where the key was observed.
    pub fn get(&self, key: &[u8]) -> (found: Option<City>)
        requires
            self.wf(),
        ensures
            found is Some <==> self@.contains_key(key@),
            found matches Some(city) ==> city.wf() && city@ == self@[key@],
    {
        let (at, found) = self.locate(key);
        if found {
            proof {
                lemma_position(self.entries@, at as int);
            }
            Some(self.entries[at].stat)
        } else {
            proof {
                self.lemma_absent(key@, at as int);
            }
            None
        }
    }

    /// A key that is smaller than every entry from `at` on and greater than
    /// every entry before is not in the table.
    proof fn lemma_absent(&self, key: Seq<u8>, at: int)
        requires
            0 <= at <= self.entries@.len(),
            forall|i: int| 0 <= i < at ==> key_lt((#[trigger] self.entries@[i]).key@, key),
            forall|i: int|
                at <= i < self.entries@.len() ==> key_lt(key, (#[trigger] self.entries@[i]).key@),
        ensures
            !self@.contains_key(key),
    {
        lemma_key_lt_irreflexive(key);
    }

    /// The table holds as many keys as it has entries.
    proof fn lemma_len(&self)
        requires
            self.wf(),
        ensures
            self@.dom().finite(),
            self@.dom().len() == self.entries@.len(),
    {
        lemma_entries_len(self.entries@);
    }

    /// Observes a value for a key. A key that is new comes into the table
    /// with the empty statistic; then the statistic of the key takes the
    /// value in. Nothing else in the table changes.
    pub fn observe(&mut self, key: &[u8], value: i16)
        requires
            old(self).wf(),
            old(self)@.contains_key(key@) ==> old(self)@[key@].count < u64::MAX,
        ensures
            final(self).wf(),
            final(self)@ == observed(old(self)@, key@, value),
    {
        let (at, found) = self.locate(key);
        let ghost before = self.entries@;
        if found {
            proof {
                lemma_position(before, at as int);
            }
            self.entries[at].stat.add(value);
            proof {
                let after = self.entries@;
                assert forall|i: int| 0 <= i < after.len() implies (#[trigger] after[i]).key@
                    == before[i].key@ by {}
                assert(ascending(after));
                assert(self@ =~= observed(old(self)@, key@, value)) by {
                    assert forall|k: Seq<u8>| has_key(before, k) implies has_key(after, k) by {
                        assert(after[position(before, k)].key@ == k);
                    }
                    assert forall|k: Seq<u8>| has_key(after, k) implies has_key(before, k)
                        && entries_tally(after)[k] == observed(old(self)@, key@, value)[k] by {
                        let i = position(after, k);
                        lemma_position(before, i);
                        lemma_position(after, i);
                    }
                }
            }
        } else {
            let mut stat = City::default();
            stat.add(value);
            let entry = Entry { key: slice_to_vec(key), stat };
            self.entries.insert(at, entry);
            proof {
                let after = self.entries@;
                old(self).lemma_absent(key@, at as int);
                assert(ascending(after));
                assert(self@ =~= observed(old(self)@, key@, value)) by {
                    assert forall|k: Seq<u8>| has_key(before, k) implies has_key(after, k) by {
                        let i = position(before, k);
                        let shifted = if i < at {
                            i
                        } else {
                            i + 1
                        };
                        assert(after[shifted].key@ == k);
                    }
                    assert(after[at as int].key@ == key@);
                    assert forall|k: Seq<u8>| has_key(after, k) implies (k == key@ || has_key(
                        before,
                        k,
                    )) && entries_tally(after)[k] == observed(old(self)@, key@, value)[k] by {
                        let i = position(after, k);
                        lemma_position(after, i);
                        if i != at {
                            let origin = if i < at {
                                i
                            } else {
                                i - 1
                            };
                            lemma_position(before, origin);
                        }
                    }
                }
            }
        }
    }

    /// Hands out what the table holds as the rows of the report: for each
    /// key the least value, the mean rounded toward zero and the greatest
    /// value, the keys ascending byte by byte.
    pub fn drain(self) -> (rows: Vec<Row>)
        requires
            self.wf(),
        ensures
            is_report(self@, report_view(rows@)),
            report_view(rows@) == report_of(self@),
    {
        let ghost entries = self.entries@;
        let mut rows: Vec<Row> = Vec::new();
        for entry in it: self.entries
            invariant
                it.seq() == entries,
                ascending(entries),
                forall|i: int|
                    0 <= i < entries.len() ==> (#[trigger] entries[i]).stat.wf()
                        && entries[i].stat@.count >= 1,
                rows@.len() == it.index(),
                forall|i: int|
                    0 <= i < rows@.len() ==> (#[trigger] rows@[i])@ == row_of(
                        entries[i].key@,
                        entries[i].stat@,
                    ),
        {
            let mean = entry.stat.mean();
            let row = Row { key: entry.key, min: entry.stat.min(), mean, max: entry.stat.max() };
            rows.push(row);
        }
        proof {
            let report = report_view(rows@);
            assert forall|i: int| 0 <= i < report.len() implies self@.contains_key(
                #[trigger] report[i].key,
            ) && report[i] == row_of(report[i].key, self@[report[i].key]) by {
                lemma_position(entries, i);
            }
            assert forall|k: Seq<u8>| self@.contains_key(k) implies exists|i: int|
                0 <= i < report.len() && #[trigger] report[i].key == k by {
                let i = position(entries, k);
                assert(report[i].key == k);
            }
            lemma_report_is_report_of(self@, report);
        }
        rows
    }
}

/// Ascending entries hold as many keys as they are.
proof fn lemma_entries_len(entries: Seq<Entry>)
    requires
        ascending(entries),
    ensures
        entries_tally(entries).dom().finite(),
        entries_tally(entries).dom().len() == entries.len(),
    decreases entries.len(),
{
    let keys = entries_tally(entries).dom();
    if entries.len() == 0 {
        assert(keys =~= Set::<Seq<u8>>::empty());
    } else {
        let fewer = entries.drop_last();
        let last = entries.last().key@;
        assert(ascending(fewer));
        lemma_entries_len(fewer);
        let fewer_keys = entries_tally(fewer).dom();
        assert(!fewer_keys.contains(last)) by {
            lemma_key_lt_irreflexive(last);
        }
        assert(keys =~= fewer_keys.insert(last)) by {
            assert forall|k: Seq<u8>| keys.contains(k) implies fewer_keys.insert(last).contains(
                k,
            ) by {
                let i = position(entries, k);
                if i < fewer.len() {
                    assert(fewer[i].key@ == k);
                }
            }
        }
    }
}

} // verus!

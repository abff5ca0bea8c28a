//! The fixed-capacity open-addressing aggregation table.
//!
//! A table is a fixed array of slots, each an `Entry`. A key's home slot is
//! its hash modulo the size; on a collision the probe walks forward
//! cyclically, claiming the first unoccupied slot or stopping at the slot
//! already holding the key. Slots never move once claimed, and the table
//! never resizes: a probe that wraps all the way around means the table was
//! sized below the number of distinct keys, which is a fatal configuration
//! defect. The table's view is the map from key bytes to summary model.

use vstd::prelude::*;
use vstd::pervasive::VecAdditionalExecFns;
use crate::error::{BarseError, BarseErrorKind};
use crate::inline_string::{InlineString, MAX_STRING_LEN};
use crate::reading::{TemperatureReading, MIN_READING, MAX_READING};
use crate::str_hash::{spec_str_hash, str_hash};
use crate::summary::{sum_add, sum_empty, sum_merge, sum_wf, SummaryView, TemperatureSummary};
use crate::table_entry::Entry;

verus! {

/// The home slot of a key in a table of `size` slots.
pub open spec fn home_slot(k: Seq<u8>, size: int) -> int {
    spec_str_hash(k) as int % size
}

/// The cyclic distance from `start` forward to `i`.
pub open spec fn probe_dist(start: int, i: int, size: int) -> int {
    if i >= start {
        i - start
    } else {
        i + size - start
    }
}

/// The slot reached from `home` after `d` forward steps.
pub open spec fn slot_at(home: int, d: int, size: int) -> int {
    (home + d) % size
}

/// Walking the probe distance from the home slot lands on the slot.
proof fn lemma_probe_dist_round_trip(home: int, i: int, size: int)
    requires
        0 <= home < size,
        0 <= i < size,
    ensures
        0 <= probe_dist(home, i, size) < size,
        slot_at(home, probe_dist(home, i, size), size) == i,
{
    let d = probe_dist(home, i, size);
    if i >= home {
        vstd::arithmetic::div_mod::lemma_small_mod(i as nat, size as nat);
    } else {
        assert(home + d == size * 1 + i);
        vstd::arithmetic::div_mod::lemma_mod_multiples_vanish(1, i, size);
        vstd::arithmetic::div_mod::lemma_small_mod(i as nat, size as nat);
    }
}

/// Forward steps shorter than the size land on pairwise different slots.
proof fn lemma_slot_at_in_range(home: int, d: int, size: int)
    requires
        0 <= home < size,
        0 <= d < size,
    ensures
        0 <= slot_at(home, d, size) < size,
        probe_dist(home, slot_at(home, d, size), size) == d,
{
    if home + d < size {
        vstd::arithmetic::div_mod::lemma_small_mod((home + d) as nat, size as nat);
    } else {
        assert(home + d == size * 1 + (home + d - size));
        vstd::arithmetic::div_mod::lemma_mod_multiples_vanish(1, home + d - size, size);
        vstd::arithmetic::div_mod::lemma_small_mod((home + d - size) as nat, size as nat);
    }
}

/// No two occupied slots hold the same key.
pub open spec fn distinct_keys(es: Seq<Entry>) -> bool {
    forall|i: int, j: int|
        #![trigger es[i], es[j]]
        0 <= i < j < es.len() && es[i].key@.len() > 0 && es[j].key@.len() > 0 ==> es[i].key@
            != es[j].key@
}

/// Every occupied slot is reachable from its key's home slot through
/// occupied slots only: nothing on the probe path to it is free.
pub open spec fn probe_paths_ok(es: Seq<Entry>) -> bool {
    forall|i: int, j: int|
        #![trigger es[i], es[j]]
        0 <= i < es.len() && 0 <= j < es.len() && es[i].key@.len() > 0 && probe_dist(
            home_slot(es[i].key@, es.len() as int),
            j,
            es.len() as int,
        ) < probe_dist(home_slot(es[i].key@, es.len() as int), i, es.len() as int) ==> es[j].key@.len() > 0
}

/// How many slots are occupied.
pub open spec fn num_occupied(es: Seq<Entry>) -> int
    decreases es.len(),
{
    if es.len() == 0 {
        0
    } else {
        num_occupied(es.drop_last()) + if es.last().key@.len() > 0 {
            1int
        } else {
            0int
        }
    }
}

/// The map a slot array denotes: each occupied slot contributes its key.
pub open spec fn entries_view(es: Seq<Entry>) -> Map<Seq<u8>, SummaryView>
    decreases es.len(),
{
    if es.len() == 0 {
        Map::empty()
    } else {
        let prev = entries_view(es.drop_last());
        let e = es.last();
        if e.key@.len() > 0 {
            prev.insert(e.key@, e.temp_summary@)
        } else {
            prev
        }
    }
}

/// A key is in the view exactly when some occupied slot holds it.
pub proof fn lemma_view_contains(es: Seq<Entry>, k: Seq<u8>)
    ensures
        entries_view(es).dom().contains(k) <==> exists|i: int|
            0 <= i < es.len() && (#[trigger] es[i]).key@ == k && es[i].key@.len() > 0,
    decreases es.len(),
{
    if es.len() > 0 {
        lemma_view_contains(es.drop_last(), k);
        let last = es.len() - 1;
        if entries_view(es).dom().contains(k) {
            if es[last].key@.len() > 0 && es[last].key@ == k {
                assert(es[last].key@ == k && es[last].key@.len() > 0);
            } else {
                let i = choose|i: int|
                    0 <= i < es.drop_last().len() && (#[trigger] es.drop_last()[i]).key@ == k
                        && es.drop_last()[i].key@.len() > 0;
                assert(es[i] == es.drop_last()[i]);
            }
        }
        if exists|i: int| 0 <= i < es.len() && (#[trigger] es[i]).key@ == k && es[i].key@.len() > 0 {
            let i = choose|i: int|
                0 <= i < es.len() && (#[trigger] es[i]).key@ == k && es[i].key@.len() > 0;
            if i < last {
                assert(es.drop_last()[i] == es[i]);
            }
        }
    }
}

/// An occupied slot's key maps to that slot's summary, when keys are
/// distinct.
pub proof fn lemma_view_at(es: Seq<Entry>, i: int)
    requires
        0 <= i < es.len(),
        es[i].key@.len() > 0,
        distinct_keys(es),
    ensures
        entries_view(es).dom().contains(es[i].key@),
        entries_view(es)[es[i].key@] == es[i].temp_summary@,
    decreases es.len(),
{
    let last = es.len() - 1;
    if i == last {
        lemma_view_contains(es, es[i].key@);
    } else {
        assert(es.drop_last()[i] == es[i]);
        lemma_view_at(es.drop_last(), i);
        if es[last].key@.len() > 0 {
            assert(es[last].key@ != es[i].key@);
        }
    }
}

/// Replacing an occupied slot's summary (same key) updates the view at
/// that key alone.
pub proof fn lemma_view_update_same_key(es: Seq<Entry>, i: int, e2: Entry)
    requires
        0 <= i < es.len(),
        es[i].key@.len() > 0,
        distinct_keys(es),
        e2.key@ == es[i].key@,
    ensures
        entries_view(es.update(i, e2)) == entries_view(es).insert(e2.key@, e2.temp_summary@),
    decreases es.len(),
{
    let es2 = es.update(i, e2);
    let last = es.len() - 1;
    if i == last {
        assert(es2.drop_last() =~= es.drop_last());
        assert(es2.last() == e2);
        assert(entries_view(es2) =~= entries_view(es).insert(e2.key@, e2.temp_summary@));
    } else {
        assert(es2.drop_last() =~= es.drop_last().update(i, e2));
        assert(es.drop_last()[i] == es[i]);
        lemma_view_update_same_key(es.drop_last(), i, e2);
        assert(es2.last() == es.last());
        if es.last().key@.len() > 0 {
            assert(es.last().key@ != es[i].key@);
            assert(entries_view(es2) =~= entries_view(es).insert(e2.key@, e2.temp_summary@));
        } else {
            assert(entries_view(es2) =~= entries_view(es).insert(e2.key@, e2.temp_summary@));
        }
    }
}

/// Claiming a free slot for a key held nowhere else inserts that key.
pub proof fn lemma_view_update_claim(es: Seq<Entry>, i: int, e2: Entry)
    requires
        0 <= i < es.len(),
        es[i].key@.len() == 0,
        e2.key@.len() > 0,
        forall|j: int| 0 <= j < es.len() && (#[trigger] es[j]).key@.len() > 0 ==> es[j].key@ != e2.key@,
    ensures
        entries_view(es.update(i, e2)) == entries_view(es).insert(e2.key@, e2.temp_summary@),
    decreases es.len(),
{
    let es2 = es.update(i, e2);
    let last = es.len() - 1;
    if i == last {
        assert(es2.drop_last() =~= es.drop_last());
        assert(entries_view(es2) =~= entries_view(es).insert(e2.key@, e2.temp_summary@));
    } else {
        assert(es2.drop_last() =~= es.drop_last().update(i, e2));
        assert(forall|j: int|
            0 <= j < es.drop_last().len() ==> es.drop_last()[j] == (#[trigger] es[j]));
        lemma_view_update_claim(es.drop_last(), i, e2);
        assert(es2.last() == es.last());
        if es.last().key@.len() > 0 {
            assert(es.last().key@ != e2.key@);
            assert(entries_view(es2) =~= entries_view(es).insert(e2.key@, e2.temp_summary@));
        } else {
            assert(entries_view(es2) =~= entries_view(es).insert(e2.key@, e2.temp_summary@));
        }
    }
}

/// With distinct keys the view's domain is finite and as large as the
/// number of occupied slots.
pub proof fn lemma_view_card(es: Seq<Entry>)
    requires
        distinct_keys(es),
    ensures
        entries_view(es).dom().finite(),
        entries_view(es).dom().len() == num_occupied(es),
    decreases es.len(),
{
    if es.len() == 0 {
        assert(entries_view(es).dom() =~= Set::<Seq<u8>>::empty());
    } else {
        assert(forall|i: int|
            0 <= i < es.drop_last().len() ==> es.drop_last()[i] == (#[trigger] es[i]));
        lemma_view_card(es.drop_last());
        let last = es.len() - 1;
        if es[last].key@.len() > 0 {
            lemma_view_contains(es.drop_last(), es[last].key@);
            assert(forall|i: int|
                0 <= i < es.drop_last().len() && (#[trigger] es.drop_last()[i]).key@.len() > 0
                    ==> es.drop_last()[i].key@ != es[last].key@);
            assert(!entries_view(es.drop_last()).dom().contains(es[last].key@));
        }
    }
}

/// Occupancy is bounded by the slot count, and a table with every slot
/// occupied has exactly as many keys as slots.
pub proof fn lemma_num_occupied_bounds(es: Seq<Entry>)
    ensures
        0 <= num_occupied(es) <= es.len(),
        (forall|i: int| 0 <= i < es.len() ==> (#[trigger] es[i]).key@.len() > 0) ==> num_occupied(
            es,
        ) == es.len(),
        (exists|i: int| 0 <= i < es.len() && (#[trigger] es[i]).key@.len() == 0) ==> num_occupied(
            es,
        ) < es.len(),
    decreases es.len(),
{
    if es.len() > 0 {
        assert(forall|i: int|
            0 <= i < es.drop_last().len() ==> es.drop_last()[i] == (#[trigger] es[i]));
        lemma_num_occupied_bounds(es.drop_last());
        if exists|i: int| 0 <= i < es.len() && (#[trigger] es[i]).key@.len() == 0 {
            let i = choose|i: int| 0 <= i < es.len() && (#[trigger] es[i]).key@.len() == 0;
            if i < es.len() - 1 {
                assert(es.drop_last()[i].key@.len() == 0);
            }
        }
    }
}

/// Occupancy changes by the occupancy difference of the replaced slot.
pub proof fn lemma_num_occupied_update(es: Seq<Entry>, i: int, e2: Entry)
    requires
        0 <= i < es.len(),
    ensures
        num_occupied(es.update(i, e2)) == num_occupied(es) + (if e2.key@.len() > 0 {
            1int
        } else {
            0int
        }) - (if es[i].key@.len() > 0 {
            1int
        } else {
            0int
        }),
    decreases es.len(),
{
    let es2 = es.update(i, e2);
    let last = es.len() - 1;
    if i == last {
        assert(es2.drop_last() =~= es.drop_last());
    } else {
        assert(es2.drop_last() =~= es.drop_last().update(i, e2));
        lemma_num_occupied_update(es.drop_last(), i, e2);
        assert(es2.last() == es.last());
    }
}

/// What a probe found.
pub enum ProbeOutcome {
    /// The slot already holding the key.
    Matched(usize),
    /// The first free slot on the key's probe path.
    Claimable(usize),
    /// Every slot is occupied by some other key.
    Full,
}

/// The open-addressing map from station keys to running summaries.
pub struct WeatherStationTable {
    entries: Vec<Entry>,
    occupied: usize,
}

impl View for WeatherStationTable {
    type V = Map<Seq<u8>, SummaryView>;

    closed spec fn view(&self) -> Map<Seq<u8>, SummaryView> {
        entries_view(self.entries@)
    }
}

impl WeatherStationTable {
    /// The slot count, fixed at construction.
    pub closed spec fn size(&self) -> int {
        self.entries@.len() as int
    }

    /// Well-formedness: distinct keys, sound probe paths, an occupancy
    /// counter in step with the slots, and well-formed summaries.
    pub closed spec fn wf(&self) -> bool {
        &&& 1 <= self.entries@.len() <= usize::MAX / 2
        &&& distinct_keys(self.entries@)
        &&& probe_paths_ok(self.entries@)
        &&& self.occupied == num_occupied(self.entries@)
        &&& forall|i: int|
            0 <= i < self.entries@.len() ==> (#[trigger] self.entries@[i]).key@.len()
                <= MAX_STRING_LEN
        &&& forall|i: int|
            0 <= i < self.entries@.len() && (#[trigger] self.entries@[i]).key@.len() > 0 ==> sum_wf(
                self.entries@[i].temp_summary@,
            ) && self.entries@[i].temp_summary@.count >= 1
        &&& forall|i: int|
            0 <= i < self.entries@.len() && (#[trigger] self.entries@[i]).key@.len() == 0
                ==> self.entries@[i].temp_summary@ == sum_empty()
    }

    /// A table of `size` unoccupied slots.
    pub fn new(size: usize) -> (r: Self)
        requires
            1 <= size <= usize::MAX / 2,
        ensures
            r.wf(),
            r@ == Map::<Seq<u8>, SummaryView>::empty(),
            r.size() == size,
    {
        let mut entries: Vec<Entry> = Vec::new();
        let mut i: usize = 0;
        while i < size
            invariant
                i <= size,
            	entries@.len() == i,
                forall|j: int|
                    0 <= j < i ==> (#[trigger] entries@[j]).key@.len() == 0 && entries@[j].temp_summary@
                        == sum_empty(),
            decreases size - i,
        {
            entries.push(Entry::new());
            i = i + 1;
        }
        let r = WeatherStationTable { entries, occupied: 0 };
        proof {
            lemma_view_empty(r.entries@);
            lemma_num_occupied_empty(r.entries@);
        }
        r
    }

    /// Probes for a key from its home slot: the matching slot, the first
    /// free slot, or nothing when the table is full of other keys.
    #[verifier::rlimit(100)]
    fn probe(&self, station: &[u8]) -> (r: ProbeOutcome)
        requires
            self.wf(),
            1 <= station@.len() <= MAX_STRING_LEN,
        ensures
            match r {
                ProbeOutcome::Matched(i) => {
                    &&& i < self.size()
                    &&& self.entry_key_at(i as int) == station@
                },
                ProbeOutcome::Claimable(i) => {
                    &&& i < self.size()
                    &&& self.entry_key_at(i as int).len() == 0
                    &&& !self@.dom().contains(station@)
                    &&& forall|j: int|
                        0 <= j < self.size() && probe_dist(
                            home_slot(station@, self.size()),
                            j,
                            self.size(),
                        ) < probe_dist(home_slot(station@, self.size()), i as int, self.size())
                            ==> #[trigger] self.entry_key_at(j).len() > 0
                },
                ProbeOutcome::Full => {
                    &&& !self@.dom().contains(station@)
                    &&& self@.dom().len() == self.size()
                },
            },
    {
        let size = self.entries.len();
        let home = (str_hash(station) as usize) % size;
        proof {
            assert(home == home_slot(station@, self.size()));
        }
        let ghost es = self.entries@;
        let mut d: usize = 0;
        while d < size
            invariant
                self.wf(),
                es == self.entries@,
                size == self.entries@.len(),
                1 <= station@.len() <= MAX_STRING_LEN,
                home == home_slot(station@, size as int),
                0 <= home < size,
                d <= size,
                forall|d2: int|
                    0 <= d2 < d ==> {
                        &&& (#[trigger] es[slot_at(home as int, d2, size as int)]).key@.len() > 0
                        &&& es[slot_at(home as int, d2, size as int)].key@ != station@
                    },
            decreases size - d,
        {
            let idx = (home + d) % size;
            proof {
                lemma_slot_at_in_range(home as int, d as int, size as int);
            }
            if self.entries[idx].is_default() {
                proof {
                    self.lemma_probe_found_empty(station@, home as int, d as int, idx as int);
                }
                return ProbeOutcome::Claimable(idx);
            }
            if self.entries[idx].key.eq_foreign_str(station) {
                return ProbeOutcome::Matched(idx);
            }
            d = d + 1;
        }
        proof {
            self.lemma_probe_wrapped(station@, home as int);
        }
        ProbeOutcome::Full
    }

    /// The key of slot `i`.
    pub closed spec fn entry_key_at(&self, i: int) -> Seq<u8> {
        self.entries@[i].key@
    }

    /// If the probe reached a free slot, the key is nowhere in the table,
    /// and everything nearer the home slot is occupied.
    #[verifier::rlimit(100)]
    proof fn lemma_probe_found_empty(&self, station: Seq<u8>, home: int, d: int, idx: int)
        requires
            self.wf(),
            0 <= home < self.size(),
            home == home_slot(station, self.size()),
            0 <= d < self.size(),
            idx == slot_at(home, d, self.size()),
            0 <= idx < self.size(),
            self.entries@[idx].key@.len() == 0,
            forall|d2: int|
                0 <= d2 < d ==> {
                    &&& (#[trigger] self.entries@[slot_at(home, d2, self.size())]).key@.len() > 0
                    &&& self.entries@[slot_at(home, d2, self.size())].key@ != station
                },
        ensures
            !self@.dom().contains(station),
            forall|j: int|
                0 <= j < self.size() && probe_dist(home, j, self.size()) < d
                    ==> (#[trigger] self.entries@[j]).key@.len() > 0,
    {
        let es = self.entries@;
        let size = self.size();
        lemma_slot_at_in_range(home, d, size);
        assert forall|j: int|
            0 <= j < size && probe_dist(home, j, size) < d implies (#[trigger] es[j]).key@.len()
            > 0 by {
            lemma_probe_dist_round_trip(home, j, size);
            let d2 = probe_dist(home, j, size);
            assert(es[slot_at(home, d2, size)].key@.len() > 0);
        }
        if self@.dom().contains(station) {
            lemma_view_contains(es, station);
            let m = choose|i: int|
                0 <= i < es.len() && (#[trigger] es[i]).key@ == station && es[i].key@.len() > 0;
            lemma_probe_dist_round_trip(home, m, size);
            let dm = probe_dist(home, m, size);
            if dm < d {
                assert(es[slot_at(home, dm, size)].key@ != station);
            } else if dm == d {
                assert(m == idx);
            } else {
                assert(es[m].key@.len() > 0);
                assert(probe_dist(home_slot(es[m].key@, size), idx, size) < probe_dist(
                    home_slot(es[m].key@, size),
                    m,
                    size,
                ));
                assert(es[idx].key@.len() > 0);
            }
        }
    }

    /// If the probe wrapped all the way around, every slot is occupied by
    /// some other key, so the table holds exactly `size` keys, none of them
    /// this one.
    proof fn lemma_probe_wrapped(&self, station: Seq<u8>, home: int)
        requires
            self.wf(),
            0 <= home < self.size(),
            home == home_slot(station, self.size()),
            forall|d2: int|
                0 <= d2 < self.size() ==> {
                    &&& (#[trigger] self.entries@[slot_at(home, d2, self.size())]).key@.len() > 0
                    &&& self.entries@[slot_at(home, d2, self.size())].key@ != station
                },
        ensures
            !self@.dom().contains(station),
            self@.dom().len() == self.size(),
    {
        let es = self.entries@;
        let size = self.size();
        assert forall|j: int| 0 <= j < size implies (#[trigger] es[j]).key@.len() > 0 && es[j].key@
            != station by {
            lemma_probe_dist_round_trip(home, j, size);
            let d2 = probe_dist(home, j, size);
            assert(es[slot_at(home, d2, size)].key@.len() > 0);
            assert(es[slot_at(home, d2, size)].key@ != station);
        }
        if self@.dom().contains(station) {
            lemma_view_contains(es, station);
        }
        lemma_num_occupied_bounds(es);
        lemma_view_card(es);
    }
}


/// The summary a map holds for a key, or the sentinel when absent.
pub open spec fn sum_at(m: Map<Seq<u8>, SummaryView>, k: Seq<u8>) -> SummaryView {
    if m.dom().contains(k) {
        m[k]
    } else {
        sum_empty()
    }
}

/// The pointwise combination of two tables' maps: the union of their keys,
/// with shared keys combined.
pub open spec fn map_merge(
    a: Map<Seq<u8>, SummaryView>,
    b: Map<Seq<u8>, SummaryView>,
) -> Map<Seq<u8>, SummaryView> {
    Map::new(
        |k: Seq<u8>| a.dom().contains(k) || b.dom().contains(k),
        |k: Seq<u8>|
            if a.dom().contains(k) && b.dom().contains(k) {
                sum_merge(a[k], b[k])
            } else if b.dom().contains(k) {
                b[k]
            } else {
                a[k]
            },
    )
}

/// Replacing a slot keeps keys distinct and probe paths sound, when the
/// new entry keeps the old key.
proof fn lemma_update_matched_wf(es0: Seq<Entry>, i: int, e2: Entry)
    requires
        distinct_keys(es0),
        probe_paths_ok(es0),
        0 <= i < es0.len(),
        es0[i].key@.len() > 0,
        e2.key@ == es0[i].key@,
    ensures
        distinct_keys(es0.update(i, e2)),
        probe_paths_ok(es0.update(i, e2)),
{
    let es2 = es0.update(i, e2);
    assert(forall|p: int| 0 <= p < es2.len() ==> (#[trigger] es2[p]).key@ == es0[p].key@);
    assert forall|p: int, q: int|
        #![trigger es2[p], es2[q]]
        0 <= p < q < es2.len() && es2[p].key@.len() > 0 && es2[q].key@.len() > 0 implies es2[p].key@
        != es2[q].key@ by {
        assert(es0[p].key@ == es2[p].key@ && es0[q].key@ == es2[q].key@);
    }
    assert forall|p: int, q: int|
        #![trigger es2[p], es2[q]]
        0 <= p < es2.len() && 0 <= q < es2.len() && es2[p].key@.len() > 0 && probe_dist(
            home_slot(es2[p].key@, es2.len() as int),
            q,
            es2.len() as int,
        ) < probe_dist(
            home_slot(es2[p].key@, es2.len() as int),
            p,
            es2.len() as int,
        ) implies es2[q].key@.len() > 0 by {
        assert(es0[p].key@ == es2[p].key@ && es0[q].key@ == es2[q].key@);
    }
}

/// Claiming a free slot for a fresh key, with everything nearer its home
/// slot occupied, keeps keys distinct and probe paths sound.
proof fn lemma_update_claim_wf(es0: Seq<Entry>, i: int, e2: Entry)
    requires
        distinct_keys(es0),
        probe_paths_ok(es0),
        0 <= i < es0.len(),
        es0[i].key@.len() == 0,
        e2.key@.len() > 0,
        forall|j: int|
            0 <= j < es0.len() && (#[trigger] es0[j]).key@.len() > 0 ==> es0[j].key@ != e2.key@,
        forall|j: int|
            0 <= j < es0.len() && probe_dist(home_slot(e2.key@, es0.len() as int), j, es0.len() as int)
                < probe_dist(home_slot(e2.key@, es0.len() as int), i, es0.len() as int)
                ==> (#[trigger] es0[j]).key@.len() > 0,
        forall|j: int| 0 <= j < es0.len() ==> (#[trigger] es0[j]).key@.len() <= MAX_STRING_LEN,
    ensures
        distinct_keys(es0.update(i, e2)),
        probe_paths_ok(es0.update(i, e2)),
{
    let es2 = es0.update(i, e2);
    let size = es0.len() as int;
    assert forall|p: int, q: int|
        #![trigger es2[p], es2[q]]
        0 <= p < q < es2.len() && es2[p].key@.len() > 0 && es2[q].key@.len() > 0 implies es2[p].key@
        != es2[q].key@ by {
        if p != i && q != i {
            assert(es2[p] == es0[p] && es2[q] == es0[q]);
        } else if p == i {
            assert(es2[q] == es0[q]);
        } else {
            assert(es2[p] == es0[p]);
        }
    }
    assert forall|p: int, q: int|
        #![trigger es2[p], es2[q]]
        0 <= p < es2.len() && 0 <= q < es2.len() && es2[p].key@.len() > 0 && probe_dist(
            home_slot(es2[p].key@, size),
            q,
            size,
        ) < probe_dist(home_slot(es2[p].key@, size), p, size) implies es2[q].key@.len() > 0 by {
        if p == i {
            assert(es2[p].key@ == e2.key@);
            if q != i {
                assert(es0[q].key@.len() > 0);
                assert(es2[q] == es0[q]);
            }
        } else {
            assert(es2[p] == es0[p]);
            assert(es0[q].key@.len() > 0);
            if q != i {
                assert(es2[q] == es0[q]);
            }
        }
    }
}

impl WeatherStationTable {
    /// Applies one reading to `station`'s summary, claiming a slot for the
    /// key on first sight. Success is owed whenever the key is already
    /// present or some slot is still free; the error is always a full
    /// table.
    pub fn add_reading(&mut self, station: &[u8], reading: TemperatureReading) -> (r: Result<
        (),
        BarseError,
    >)
        requires
            old(self).wf(),
            1 <= station@.len() <= MAX_STRING_LEN,
            MIN_READING <= reading@ <= MAX_READING,
            old(self)@.dom().contains(station@) ==> old(self)@[station@].count < u32::MAX,
        ensures
            final(self).wf(),
            final(self).size() == old(self).size(),
            match r {
                Ok(()) => final(self)@ == old(self)@.insert(
                    station@,
                    sum_add(sum_at(old(self)@, station@), reading@),
                ),
                Err(e) => {
                    &&& e.kind == BarseErrorKind::TableFull
                    &&& final(self)@ == old(self)@
                    &&& !old(self)@.dom().contains(station@)
                    &&& old(self)@.dom().len() == old(self).size()
                },
            },
            old(self)@.dom().contains(station@) || old(self)@.dom().len() < old(self).size()
                ==> r is Ok,
            !old(self)@.dom().contains(station@) && old(self)@.dom().len() == old(self).size()
                ==> r is Err,
    {
        let ghost es0 = self.entries@;
        match self.probe(station) {
            ProbeOutcome::Matched(i) => {
                proof {
                    lemma_view_at(es0, i as int);
                }
                let e = &self.entries[i];
                let key2 = e.key.clone();
                let mut summ = e.temp_summary;
                summ.add_reading(reading);
                let e2 = Entry { key: key2, temp_summary: summ };
                proof {
                    lemma_view_update_same_key(es0, i as int, e2);
                    lemma_num_occupied_update(es0, i as int, e2);
                    lemma_update_matched_wf(es0, i as int, e2);
                }
                self.entries.set(i, e2);
                Ok(())
            },
            ProbeOutcome::Claimable(i) => {
                let key2 = InlineString::new(station);
                let mut summ = TemperatureSummary::new();
                summ.add_reading(reading);
                let e2 = Entry { key: key2, temp_summary: summ };
                proof {
                    lemma_view_contains(es0, station@);
                    lemma_view_update_claim(es0, i as int, e2);
                    lemma_num_occupied_update(es0, i as int, e2);
                    assert forall|j: int|
                        0 <= j < es0.len() && probe_dist(
                            home_slot(e2.key@, es0.len() as int),
                            j,
                            es0.len() as int,
                        ) < probe_dist(
                            home_slot(e2.key@, es0.len() as int),
                            i as int,
                            es0.len() as int,
                        ) implies (#[trigger] es0[j]).key@.len() > 0 by {
                        assert(self.entry_key_at(j).len() > 0);
                    }
                    lemma_update_claim_wf(es0, i as int, e2);
                    lemma_num_occupied_bounds(es0);
                    assert(exists|j: int|
                        0 <= j < es0.len() && (#[trigger] es0[j]).key@.len() == 0) by {
                        assert(es0[i as int].key@.len() == 0);
                    };
                    lemma_view_card(es0);
                }
                self.entries.set(i, e2);
                self.occupied = self.occupied + 1;
                Ok(())
            },
            ProbeOutcome::Full => Err(BarseError::new(BarseErrorKind::TableFull)),
        }
    }

    /// Combines a whole summary into `station`'s slot, claiming a slot for
    /// the key on first sight. Used by the shard merge.
    fn add_summary(&mut self, station: &[u8], summary: &TemperatureSummary) -> (r: Result<
        (),
        BarseError,
    >)
        requires
            old(self).wf(),
            1 <= station@.len() <= MAX_STRING_LEN,
            sum_wf(summary@),
            summary@.count >= 1,
            old(self)@.dom().contains(station@) ==> old(self)@[station@].count + summary@.count
                <= u32::MAX,
        ensures
            final(self).wf(),
            final(self).size() == old(self).size(),
            match r {
                Ok(()) => final(self)@ == old(self)@.insert(
                    station@,
                    sum_merge(sum_at(old(self)@, station@), summary@),
                ),
                Err(e) => {
                    &&& e.kind == BarseErrorKind::TableFull
                    &&& final(self)@ == old(self)@
                    &&& !old(self)@.dom().contains(station@)
                    &&& old(self)@.dom().len() == old(self).size()
                },
            },
            old(self)@.dom().contains(station@) || old(self)@.dom().len() < old(self).size()
                ==> r is Ok,
            !old(self)@.dom().contains(station@) && old(self)@.dom().len() == old(self).size()
                ==> r is Err,
    {
        let ghost es0 = self.entries@;
        match self.probe(station) {
            ProbeOutcome::Matched(i) => {
                proof {
                    lemma_view_at(es0, i as int);
                }
                let e = &self.entries[i];
                let key2 = e.key.clone();
                let mut summ = e.temp_summary;
                summ.merge(summary);
                let e2 = Entry { key: key2, temp_summary: summ };
                proof {
                    lemma_view_update_same_key(es0, i as int, e2);
                    lemma_num_occupied_update(es0, i as int, e2);
                    lemma_update_matched_wf(es0, i as int, e2);
                }
                self.entries.set(i, e2);
                Ok(())
            },
            ProbeOutcome::Claimable(i) => {
                let key2 = InlineString::new(station);
                let mut summ = TemperatureSummary::new();
                summ.merge(summary);
                let e2 = Entry { key: key2, temp_summary: summ };
                proof {
                    lemma_view_contains(es0, station@);
                    lemma_view_update_claim(es0, i as int, e2);
                    lemma_num_occupied_update(es0, i as int, e2);
                    assert forall|j: int|
                        0 <= j < es0.len() && probe_dist(
                            home_slot(e2.key@, es0.len() as int),
                            j,
                            es0.len() as int,
                        ) < probe_dist(
                            home_slot(e2.key@, es0.len() as int),
                            i as int,
                            es0.len() as int,
                        ) implies (#[trigger] es0[j]).key@.len() > 0 by {
                        assert(self.entry_key_at(j).len() > 0);
                    }
                    lemma_update_claim_wf(es0, i as int, e2);
                    lemma_num_occupied_bounds(es0);
                    assert(exists|j: int|
                        0 <= j < es0.len() && (#[trigger] es0[j]).key@.len() == 0) by {
                        assert(es0[i as int].key@.len() == 0);
                    };
                    lemma_view_card(es0);
                }
                self.entries.set(i, e2);
                self.occupied = self.occupied + 1;
                Ok(())
            },
            ProbeOutcome::Full => Err(BarseError::new(BarseErrorKind::TableFull)),
        }
    }
}


impl WeatherStationTable {
    /// The occupied slots' pairs, in slot order, with ghost bookkeeping:
    /// the slot each pair came from, and the pair each occupied slot went
    /// to.
    #[verifier::rlimit(100)]
    fn collect_pairs(&self) -> (r: (
        Vec<(InlineString, TemperatureSummary)>,
        Ghost<Seq<int>>,
        Ghost<Map<int, int>>,
    ))
        requires
            self.wf(),
        ensures
            r.1@.len() == r.0@.len(),
            forall|p: int|
                0 <= p < r.0@.len() ==> {
                    &&& 0 <= #[trigger] r.1@[p] < self.entries@.len()
                    &&& self.entries@[r.1@[p]].key@.len() > 0
                    &&& self.entries@[r.1@[p]].key@ == r.0@[p].0@
                    &&& self.entries@[r.1@[p]].temp_summary@ == r.0@[p].1@
                },
            forall|j: int|
                0 <= j < self.entries@.len() && (#[trigger] self.entries@[j]).key@.len() > 0 ==> {
                    &&& r.2@.dom().contains(j)
                    &&& 0 <= r.2@[j] < r.0@.len()
                    &&& r.0@[r.2@[j]].0@ == self.entries@[j].key@
                },
            forall|p: int, q: int| 0 <= p < q < r.0@.len() ==> r.0@[p].0@ != r.0@[q].0@,
    {
        let ghost es = self.entries@;
        let size = self.entries.len();
        let mut out: Vec<(InlineString, TemperatureSummary)> = Vec::new();
        let ghost mut src: Seq<int> = Seq::empty();
        let ghost mut pos: Map<int, int> = Map::empty();
        let mut i: usize = 0;
        while i < size
            invariant
                es == self.entries@,
                size == es.len(),
                i <= size,
                distinct_keys(es),
                src.len() == out@.len(),
                forall|p: int|
                    0 <= p < out@.len() ==> {
                        &&& 0 <= #[trigger] src[p] < i
                        &&& es[src[p]].key@.len() > 0
                        &&& es[src[p]].key@ == out@[p].0@
                        &&& es[src[p]].temp_summary@ == out@[p].1@
                    },
                forall|p: int, q: int| 0 <= p < q < out@.len() ==> src[p] < src[q],
                forall|j: int|
                    0 <= j < i && (#[trigger] es[j]).key@.len() > 0 ==> {
                        &&& pos.dom().contains(j)
                        &&& 0 <= pos[j] < out@.len()
                        &&& out@[pos[j]].0@ == es[j].key@
                    },
            decreases size - i,
        {
            let e = &self.entries[i];
            if !e.is_default() {
                let pair = e.to_iter_pair();
                out.push(pair);
                proof {
                    src = src.push(i as int);
                    pos = pos.insert(i as int, (out@.len() - 1) as int);
                }
            }
            i = i + 1;
        }
        proof {
            assert forall|p: int, q: int|
                0 <= p < q < out@.len() implies out@[p].0@ != out@[q].0@ by {
                assert(es[src[p]].key@.len() > 0 && es[src[q]].key@.len() > 0 && src[p] < src[q]);
            }
        }
        (out, Ghost(src), Ghost(pos))
    }

    /// All `(key, summary)` pairs of occupied slots, in slot order: one
    /// pair per key of the view, carrying that key's summary.
    #[verifier::rlimit(100)]
    pub fn iter(&self) -> (r: Vec<(InlineString, TemperatureSummary)>)
        requires
            self.wf(),
        ensures
            forall|p: int|
                0 <= p < r@.len() ==> {
                    &&& self@.dom().contains((#[trigger] r@[p]).0@)
                    &&& self@[r@[p].0@] == r@[p].1@
                    &&& 1 <= r@[p].0@.len() <= MAX_STRING_LEN
                    &&& sum_wf(r@[p].1@)
                    &&& r@[p].1@.count >= 1
                },
            forall|p: int, q: int| 0 <= p < q < r@.len() ==> r@[p].0@ != r@[q].0@,
            forall|k: Seq<u8>|
                #[trigger] self@.dom().contains(k) ==> exists|p: int|
                    0 <= p < r@.len() && (#[trigger] r@[p]).0@ == k,
    {
        let ghost es = self.entries@;
        let (out, src, pos) = self.collect_pairs();
        proof {
            assert forall|p: int| 0 <= p < out@.len() implies {
                &&& self@.dom().contains((#[trigger] out@[p]).0@)
                &&& self@[out@[p].0@] == out@[p].1@
                &&& 1 <= out@[p].0@.len() <= MAX_STRING_LEN
                &&& sum_wf(out@[p].1@)
                &&& out@[p].1@.count >= 1
            } by {
                let j = src@[p];
                lemma_view_at(es, j);
            }
            assert forall|k: Seq<u8>| #[trigger] self@.dom().contains(k) implies exists|p: int|
                0 <= p < out@.len() && (#[trigger] out@[p]).0@ == k by {
                lemma_view_contains(es, k);
                let j = choose|j: int|
                    0 <= j < es.len() && (#[trigger] es[j]).key@ == k && es[j].key@.len() > 0;
                let p = pos@[j];
                assert(0 <= p < out@.len() && out@[p].0@ == k);
            }
        }
        out
    }
}


/// The map the first `n` pairs of an enumeration denote.
pub open spec fn pairs_map(ps: Seq<(InlineString, TemperatureSummary)>, n: int) -> Map<
    Seq<u8>,
    SummaryView,
>
    decreases n,
{
    if n <= 0 {
        Map::empty()
    } else {
        pairs_map(ps, n - 1).insert(ps[n - 1].0@, ps[n - 1].1@)
    }
}

/// With pairwise distinct keys, the prefix map holds exactly the prefix's
/// pairs.
proof fn lemma_pairs_map_props(ps: Seq<(InlineString, TemperatureSummary)>, n: int)
    requires
        0 <= n <= ps.len(),
        forall|p: int, q: int| 0 <= p < q < ps.len() ==> ps[p].0@ != ps[q].0@,
    ensures
        forall|p: int|
            0 <= p < n ==> {
                &&& pairs_map(ps, n).dom().contains((#[trigger] ps[p]).0@)
                &&& pairs_map(ps, n)[ps[p].0@] == ps[p].1@
            },
        forall|k: Seq<u8>|
            #[trigger] pairs_map(ps, n).dom().contains(k) ==> exists|p: int|
                0 <= p < n && (#[trigger] ps[p]).0@ == k,
    decreases n,
{
    if n > 0 {
        lemma_pairs_map_props(ps, n - 1);
        assert forall|k: Seq<u8>| #[trigger] pairs_map(ps, n).dom().contains(k) implies exists|
            p: int,
        | 0 <= p < n && (#[trigger] ps[p]).0@ == k by {
            if k == ps[n - 1].0@ {
                assert(0 <= n - 1 < n && ps[n - 1].0@ == k);
            } else {
                assert(pairs_map(ps, n - 1).dom().contains(k));
                let p = choose|p: int| 0 <= p < n - 1 && (#[trigger] ps[p]).0@ == k;
                assert(0 <= p < n && ps[p].0@ == k);
            }
        }
    }
}

/// A prefix map's domain is finite.
proof fn lemma_pairs_map_finite(ps: Seq<(InlineString, TemperatureSummary)>, n: int)
    ensures
        pairs_map(ps, n).dom().finite(),
    decreases n,
{
    if n > 0 {
        lemma_pairs_map_finite(ps, n - 1);
    }
}

/// A key of a prefix map stays in every longer prefix map.
proof fn lemma_pairs_map_dom_monotone(
    ps: Seq<(InlineString, TemperatureSummary)>,
    n1: int,
    n2: int,
    k: Seq<u8>,
)
    requires
        0 <= n1 <= n2,
        pairs_map(ps, n1).dom().contains(k),
    ensures
        pairs_map(ps, n2).dom().contains(k),
    decreases n2 - n1,
{
    if n1 < n2 {
        lemma_pairs_map_dom_monotone(ps, n1, n2 - 1, k);
    }
}

/// The merge of two maps with finite domains has a finite domain.
proof fn lemma_merge_dom_finite(a: Map<Seq<u8>, SummaryView>, b: Map<Seq<u8>, SummaryView>)
    requires
        a.dom().finite(),
        b.dom().finite(),
    ensures
        map_merge(a, b).dom().finite(),
{
    assert(map_merge(a, b).dom() =~= a.dom().union(b.dom()));
}

/// Folding one more pair into a merged map extends the merge by that pair.
proof fn lemma_merge_step(
    base: Map<Seq<u8>, SummaryView>,
    pm: Map<Seq<u8>, SummaryView>,
    k: Seq<u8>,
    v: SummaryView,
)
    requires
        !pm.dom().contains(k),
        sum_wf(v),
    ensures
        map_merge(base, pm).insert(k, sum_merge(sum_at(map_merge(base, pm), k), v)) == map_merge(
            base,
            pm.insert(k, v),
        ),
{
    crate::summary::lemma_sum_merge_empty(v);
    assert(map_merge(base, pm).insert(k, sum_merge(sum_at(map_merge(base, pm), k), v)) =~= map_merge(
        base,
        pm.insert(k, v),
    ));
}

impl WeatherStationTable {
    /// Combines every key of `other` into this table. Success is owed
    /// whenever the combined key set still fits; the error is always a full
    /// table.
    #[verifier::loop_isolation(false)]
    #[verifier::rlimit(100)]
    pub fn merge(&mut self, other: &WeatherStationTable) -> (r: Result<(), BarseError>)
        requires
            old(self).wf(),
            other.wf(),
            forall|k: Seq<u8>|
                #[trigger] old(self)@.dom().contains(k) && other@.dom().contains(k) ==> old(
                    self,
                )@[k].count + other@[k].count <= u32::MAX,
        ensures
            final(self).wf(),
            final(self).size() == old(self).size(),
            r is Ok ==> final(self)@ == map_merge(old(self)@, other@),
            r matches Err(e) ==> e.kind == BarseErrorKind::TableFull && map_merge(
                old(self)@,
                other@,
            ).dom().len() > old(self).size(),
            map_merge(old(self)@, other@).dom().len() <= old(self).size() ==> r is Ok,
            map_merge(old(self)@, other@).dom().len() > old(self).size() ==> r is Err,
    {
        let pairs = other.iter();
        let ghost ps = pairs@;
        let ghost base = old(self)@;
        let len = pairs.len();
        proof {
            lemma_view_card(self.entries@);
            assert(base.dom().finite());
            assert(pairs_map(ps, 0) =~= Map::<Seq<u8>, SummaryView>::empty());
            assert(self@ =~= map_merge(base, pairs_map(ps, 0)));
            lemma_pairs_map_props(ps, len as int);
            assert forall|k: Seq<u8>| #[trigger] other@.dom().contains(k) implies pairs_map(
                ps,
                len as int,
            ).dom().contains(k) by {
                let q = choose|q: int| 0 <= q < ps.len() && (#[trigger] ps[q]).0@ == k;
                assert(pairs_map(ps, len as int).dom().contains(ps[q].0@));
            }
            assert forall|k: Seq<u8>|
                #[trigger] pairs_map(ps, len as int).dom().contains(k) implies other@.dom().contains(
                k,
            ) && pairs_map(ps, len as int)[k] == other@[k] by {
                let q = choose|q: int| 0 <= q < len && (#[trigger] ps[q]).0@ == k;
                assert(other@.dom().contains(ps[q].0@) && other@[ps[q].0@] == ps[q].1@);
                assert(pairs_map(ps, len as int)[ps[q].0@] == ps[q].1@);
            }
            assert(pairs_map(ps, len as int) =~= other@);
        }
        let mut p: usize = 0;
        while p < len
            invariant
                p <= len,
                self.wf(),
                self.size() == old(self).size(),
                self@ == map_merge(base, pairs_map(ps, p as int)),
            decreases len - p,
        {
            let ghost cur = self@;
            let ghost k = ps[p as int].0@;
            let ghost v = ps[p as int].1@;
            proof {
                lemma_pairs_map_props(ps, p as int);
                if pairs_map(ps, p as int).dom().contains(k) {
                    let q = choose|q: int| 0 <= q < p && (#[trigger] ps[q]).0@ == k;
                    assert(ps[q].0@ != ps[p as int].0@);
                }
                assert(!pairs_map(ps, p as int).dom().contains(k));
                if cur.dom().contains(k) {
                    assert(base.dom().contains(k));
                    assert(cur[k] == base[k]);
                }
            }
            let (key, summary) = (&pairs[p].0, &pairs[p].1);
            match self.add_summary(key.value(), summary) {
                Ok(()) => {
                    proof {
                        lemma_merge_step(base, pairs_map(ps, p as int), k, v);
                    }
                },
                Err(e) => {
                    proof {
                        self.lemma_merge_full(base, ps, p as int);
                    }
                    return Err(e);
                },
            }
            p = p + 1;
        }
        proof {
            // A table that fits in its slots cannot exceed them: the final
            // view is the whole merge, so the merge fits too.
            lemma_view_card(self.entries@);
            lemma_num_occupied_bounds(self.entries@);
        }
        Ok(())
    }

    /// When a key of `other` finds this table full, the combined key set is
    /// larger than the table.
    proof fn lemma_merge_full(
        &self,
        base: Map<Seq<u8>, SummaryView>,
        ps: Seq<(InlineString, TemperatureSummary)>,
        p: int,
    )
        requires
            self.wf(),
            0 <= p < ps.len(),
            self@ == map_merge(base, pairs_map(ps, p)),
            !self@.dom().contains(ps[p].0@),
            self@.dom().len() == self.size(),
            base.dom().finite(),
            forall|q1: int, q2: int| 0 <= q1 < q2 < ps.len() ==> ps[q1].0@ != ps[q2].0@,
        ensures
            map_merge(base, pairs_map(ps, ps.len() as int)).dom().len() > self.size(),
    {
        lemma_pairs_map_props(ps, ps.len() as int);
        let k = ps[p].0@;
        let full = map_merge(base, pairs_map(ps, ps.len() as int));
        let cur = self@.dom();
        lemma_view_card(self.entries@);
        assert(cur.finite());
        assert forall|k2: Seq<u8>| #[trigger] cur.contains(k2) implies full.dom().contains(k2) by {
            if !base.dom().contains(k2) {
                assert(pairs_map(ps, p).dom().contains(k2));
                lemma_pairs_map_dom_monotone(ps, p, ps.len() as int, k2);
            }
        }
        assert(full.dom().contains(k));
        assert(cur.insert(k).subset_of(full.dom()));
        assert(cur.insert(k).len() == cur.len() + 1) by {
            vstd::set::axiom_set_insert_len(cur, k);
        };
        lemma_pairs_map_finite(ps, ps.len() as int);
        lemma_merge_dom_finite(base, pairs_map(ps, ps.len() as int));
        vstd::set_lib::lemma_len_subset(cur.insert(k), full.dom());
    }
}

/// A slot array of unoccupied entries denotes the empty map.
proof fn lemma_view_empty(es: Seq<Entry>)
    requires
        forall|j: int| 0 <= j < es.len() ==> (#[trigger] es[j]).key@.len() == 0,
    ensures
        entries_view(es) == Map::<Seq<u8>, SummaryView>::empty(),
    decreases es.len(),
{
    if es.len() > 0 {
        assert(forall|i: int|
            0 <= i < es.drop_last().len() ==> es.drop_last()[i] == (#[trigger] es[i]));
        lemma_view_empty(es.drop_last());
    }
}

/// A slot array of unoccupied entries has no occupancy.
proof fn lemma_num_occupied_empty(es: Seq<Entry>)
    requires
        forall|j: int| 0 <= j < es.len() ==> (#[trigger] es[j]).key@.len() == 0,
    ensures
        num_occupied(es) == 0,
    decreases es.len(),
{
    if es.len() > 0 {
        assert(forall|i: int|
            0 <= i < es.drop_last().len() ==> es.drop_last()[i] == (#[trigger] es[i]));
        lemma_num_occupied_empty(es.drop_last());
    }
}

} // verus!

//! The algebra of aggregation.
//!
//! `table_of` folds a record sequence into the map a table builds from it.
//! The laws here say that the fold does not care how the records were split
//! or ordered: building over a concatenation equals building each part and
//! combining; combination is commutative and associative; and permuting the
//! records leaves the result untouched. Together they justify sharded scans
//! merged in any order.

use vstd::prelude::*;
use vstd::seq_lib::group_to_multiset_ensures;
use crate::reading::{MAX_READING, MIN_READING};
use crate::records::{
    find_from, lemma_find_from, lemma_find_from_is, lemma_find_from_none,
    lemma_next_record_advances, lemma_next_record_value_range, lemma_rfind_before, naive_records,
    next_record, rfind_before, scan_records, scan_records_within, Record, ScanStep, DELIMITER,
    MAX_STATION_NAME_LEN, TERMINATOR,
};
use crate::scanner::BUFFER_OVERLAP;
use crate::summary::{
    lemma_sum_add_commutes, lemma_sum_add_merge, lemma_sum_merge_associative,
    lemma_sum_merge_commutative, sum_add, sum_merge, SummaryView,
};
use crate::table::{map_merge, sum_at};

verus! {

/// Every record carries a legal scaled value.
pub open spec fn records_wf(rs: Seq<Record>) -> bool {
    forall|i: int| 0 <= i < rs.len() ==> MIN_READING <= (#[trigger] rs[i]).value <= MAX_READING
}

/// One record applied to a map.
pub open spec fn add_record(m: Map<Seq<u8>, SummaryView>, r: Record) -> Map<Seq<u8>, SummaryView> {
    m.insert(r.key, sum_add(sum_at(m, r.key), r.value))
}

/// The map a record sequence folds to.
pub open spec fn table_of(rs: Seq<Record>) -> Map<Seq<u8>, SummaryView>
    decreases rs.len(),
{
    if rs.len() == 0 {
        Map::empty()
    } else {
        add_record(table_of(rs.drop_last()), rs.last())
    }
}

/// The fold's domain is finite.
pub proof fn lemma_table_of_finite(rs: Seq<Record>)
    ensures
        table_of(rs).dom().finite(),
    decreases rs.len(),
{
    if rs.len() > 0 {
        lemma_table_of_finite(rs.drop_last());
    }
}

/// Appending one record folds one step further.
pub proof fn lemma_table_of_push(rs: Seq<Record>, r: Record)
    ensures
        table_of(rs.push(r)) == add_record(table_of(rs), r),
{
    assert(rs.push(r).drop_last() =~= rs);
    assert(rs.push(r).last() == r);
}

/// Two records may be applied in either order.
proof fn lemma_add_record_commutes(m: Map<Seq<u8>, SummaryView>, r1: Record, r2: Record)
    ensures
        add_record(add_record(m, r1), r2) == add_record(add_record(m, r2), r1),
{
    if r1.key == r2.key {
        lemma_sum_add_commutes(sum_at(m, r1.key), r1.value, r2.value);
        assert(add_record(add_record(m, r1), r2) =~= add_record(add_record(m, r2), r1));
    } else {
        assert(add_record(add_record(m, r1), r2) =~= add_record(add_record(m, r2), r1));
    }
}

/// Applying a record after a combination is applying it to either side.
proof fn lemma_add_record_merge(
    a: Map<Seq<u8>, SummaryView>,
    b: Map<Seq<u8>, SummaryView>,
    r: Record,
)
    requires
        MIN_READING <= r.value <= MAX_READING,
    ensures
        add_record(map_merge(a, b), r) == map_merge(a, add_record(b, r)),
{
    let k = r.key;
    if a.dom().contains(k) && b.dom().contains(k) {
        lemma_sum_add_merge(a[k], b[k], r.value);
    } else if a.dom().contains(k) {
        assert(sum_merge(a[k], sum_add(crate::summary::sum_empty(), r.value)) == sum_add(
            a[k],
            r.value,
        ));
    }
    assert(add_record(map_merge(a, b), r) =~= map_merge(a, add_record(b, r)));
}

/// Building over a concatenation equals building each part and combining
/// the two results pointwise.
pub proof fn lemma_table_of_concat(a: Seq<Record>, b: Seq<Record>)
    requires
        records_wf(b),
    ensures
        table_of(a + b) == map_merge(table_of(a), table_of(b)),
    decreases b.len(),
{
    if b.len() == 0 {
        assert(a + b =~= a);
        assert(map_merge(table_of(a), table_of(b)) =~= table_of(a));
    } else {
        let b0 = b.drop_last();
        let r = b.last();
        assert(records_wf(b0)) by {
            assert(forall|i: int| 0 <= i < b0.len() ==> b0[i] == (#[trigger] b[i]));
        }
        lemma_table_of_concat(a, b0);
        assert(a + b =~= (a + b0).push(r));
        lemma_table_of_push(a + b0, r);
        assert(MIN_READING <= r.value <= MAX_READING) by {
            assert(r == b[b.len() - 1]);
        }
        lemma_add_record_merge(table_of(a), table_of(b0), r);
        lemma_table_of_push(b0, r);
        assert(b0.push(r) =~= b);
    }
}

/// Pointwise combination of tables is commutative.
pub proof fn lemma_map_merge_commutative(a: Map<Seq<u8>, SummaryView>, b: Map<Seq<u8>, SummaryView>)
    ensures
        map_merge(a, b) == map_merge(b, a),
{
    assert forall|k: Seq<u8>|
        map_merge(a, b).dom().contains(k) implies #[trigger] map_merge(a, b)[k] == map_merge(
        b,
        a,
    )[k] by {
        if a.dom().contains(k) && b.dom().contains(k) {
            lemma_sum_merge_commutative(a[k], b[k]);
        }
    }
    assert(map_merge(a, b) =~= map_merge(b, a));
}

/// Pointwise combination of tables is associative.
pub proof fn lemma_map_merge_associative(
    a: Map<Seq<u8>, SummaryView>,
    b: Map<Seq<u8>, SummaryView>,
    c: Map<Seq<u8>, SummaryView>,
)
    ensures
        map_merge(map_merge(a, b), c) == map_merge(a, map_merge(b, c)),
{
    assert forall|k: Seq<u8>|
        map_merge(map_merge(a, b), c).dom().contains(k) implies #[trigger] map_merge(
        map_merge(a, b),
        c,
    )[k] == map_merge(a, map_merge(b, c))[k] by {
        if a.dom().contains(k) && b.dom().contains(k) && c.dom().contains(k) {
            lemma_sum_merge_associative(a[k], b[k], c[k]);
        }
    }
    assert(map_merge(map_merge(a, b), c) =~= map_merge(a, map_merge(b, c)));
}

/// Removing a record from anywhere is folding the rest and applying it
/// last.
proof fn lemma_table_of_remove(a: Seq<Record>, i: int)
    requires
        0 <= i < a.len(),
    ensures
        table_of(a) == add_record(table_of(a.remove(i)), a[i]),
    decreases a.len(),
{
    let last = a.len() - 1;
    if i == last {
        assert(a.remove(i) =~= a.drop_last());
    } else {
        let b = a.drop_last();
        lemma_table_of_remove(b, i);
        lemma_add_record_commutes(table_of(b.remove(i)), b[i], a.last());
        assert(a.remove(i) =~= b.remove(i).push(a.last()));
        lemma_table_of_push(b.remove(i), a.last());
    }
}

/// Permuting the records never changes the fold: the final table depends
/// on the multiset of records alone.
pub proof fn lemma_table_of_permutation(a: Seq<Record>, b: Seq<Record>)
    requires
        a.to_multiset() == b.to_multiset(),
    ensures
        table_of(a) == table_of(b),
    decreases a.len(),
{
    broadcast use group_to_multiset_ensures;

    if a.len() == 0 {
        assert(b.to_multiset().len() == 0);
        assert(b.len() == 0);
    } else {
        let r = a.last();
        assert(a.to_multiset().contains(r)) by {
            assert(a.contains(r));
        }
        assert(b.to_multiset().contains(r));
        assert(b.contains(r));
        let j = choose|j: int| 0 <= j < b.len() && b[j] == r;
        lemma_table_of_remove(b, j);
        assert(a.drop_last() =~= a.remove(a.len() - 1));
        assert(a.remove(a.len() - 1).to_multiset() =~= a.to_multiset().remove(r));
        assert(b.remove(j).to_multiset() =~= b.to_multiset().remove(r));
        lemma_table_of_permutation(a.drop_last(), b.remove(j));
    }
}

/// Every record a successful scan yields carries a legal key and value.
pub proof fn lemma_scan_records_wf(s: Seq<u8>, pos: int)
    requires
        0 <= pos,
        scan_records(s, pos) is Some,
    ensures
        records_wf(scan_records(s, pos).unwrap()),
        forall|i: int|
            0 <= i < scan_records(s, pos).unwrap().len() ==> 1 <= (#[trigger] scan_records(
                s,
                pos,
            ).unwrap()[i]).key.len() <= crate::records::MAX_STATION_NAME_LEN,
    decreases s.len() - pos,
{
    match next_record(s, pos) {
        ScanStep::Done => {},
        ScanStep::Fail { kind } => {},
        ScanStep::Rec { key, value, next } => {
            lemma_next_record_advances(s, pos);
            lemma_next_record_value_range(s, pos);
            lemma_scan_records_wf(s, next);
            let rest = scan_records(s, next).unwrap();
            let all = scan_records(s, pos).unwrap();
            assert(all == seq![Record { key, value }].add(rest));
            assert(forall|i: int| 1 <= i < all.len() ==> all[i] == rest[i - 1]);
            assert(all[0] == Record { key, value });
        },
    }
}

/// A table that is full when a fresh key arrives cannot hold the whole
/// stream: the stream's distinct keys outnumber the slots.
pub proof fn lemma_full_means_overflow(
    consumed: Seq<Record>,
    rec: Record,
    rest2: Seq<Record>,
    size: int,
)
    requires
        records_wf(seq![rec] + rest2),
        table_of(consumed).dom().len() == size,
        !table_of(consumed).dom().contains(rec.key),
    ensures
        table_of(consumed + (seq![rec] + rest2)).dom().len() > size,
{
    let tail = seq![rec] + rest2;
    lemma_table_of_concat(consumed, tail);
    let full = table_of(consumed + tail);
    let cur = table_of(consumed).dom();
    assert(table_of(tail).dom().contains(rec.key)) by {
        assert forall|i: int|
            0 <= i < rest2.len() implies MIN_READING <= (#[trigger] rest2[i]).value
            <= MAX_READING by {
            assert(rest2[i] == tail[i + 1]);
        }
        lemma_table_of_concat(seq![rec], rest2);
        assert(table_of(seq![rec]).dom().contains(rec.key)) by {
            assert(seq![rec].drop_last() =~= Seq::<Record>::empty());
            assert(seq![rec].last() == rec);
        }
        assert(seq![rec] + rest2 =~= tail);
    }
    lemma_table_of_finite(consumed);
    lemma_table_of_finite(tail);
    assert(full.dom() =~= cur.union(table_of(tail).dom()));
    assert(cur.insert(rec.key).subset_of(full.dom()));
    assert(cur.insert(rec.key).len() == size + 1) by {
        vstd::set::axiom_set_insert_len(cur, rec.key);
    };
    vstd::set_lib::lemma_len_subset(cur.insert(rec.key), full.dom());
}

/// Scanner/reference equivalence: whenever the naive line-split parser
/// accepts a buffer, the windowed scan model yields exactly the same record
/// sequence.
pub proof fn lemma_scan_matches_naive(s: Seq<u8>, pos: int)
    requires
        0 <= pos,
        naive_records(s, pos) is Some,
    ensures
        scan_records(s, pos) == naive_records(s, pos),
    decreases s.len() - pos,
{
    if pos >= s.len() || s[pos] == 0 {
        assert(next_record(s, pos) is Done);
    } else {
        let nl = find_from(s, TERMINATOR, pos);
        let semi = find_from(s, DELIMITER, pos);
        lemma_find_from(s, TERMINATOR, pos);
        lemma_find_from(s, DELIMITER, pos);
        let token = s.subrange(semi + 1, nl);
        crate::reading::lemma_decode_some_len(token);
        // The first terminator after the delimiter is the line's own.
        assert(find_from(s, TERMINATOR, semi + 1) == nl) by {
            lemma_find_from_is(s, TERMINATOR, semi + 1, nl);
        };
        assert(nl <= semi + 6);
        assert(next_record(s, pos) == (ScanStep::Rec {
            key: s.subrange(pos, semi),
            value: crate::reading::spec_decode(token).unwrap(),
            next: nl + 1,
        }));
        lemma_scan_matches_naive(s, nl + 1);
    }
}

/// How a slice cut at `e1` changes a search: an occurrence before the cut
/// survives, anything at or past it disappears.
proof fn lemma_find_from_take(s: Seq<u8>, x: u8, p: int, e1: int)
    requires
        0 <= p,
        0 <= e1 <= s.len(),
    ensures
        ({
            let f = find_from(s, x, p);
            let ft = find_from(s.take(e1), x, p);
            if f != -1 && f < e1 {
                ft == f
            } else {
                ft == -1
            }
        }),
{
    let f = find_from(s, x, p);
    lemma_find_from(s, x, p);
    if f != -1 && f < e1 {
        assert(s.take(e1)[f] == x);
        assert(forall|i: int| p <= i < f ==> s.take(e1)[i] != x);
        lemma_find_from_is(s.take(e1), x, p, f);
    } else {
        assert(forall|i: int| p <= i < s.take(e1).len() ==> s.take(e1)[i] != x);
        lemma_find_from_none(s.take(e1), x, p);
    }
}

/// The stop half of the shard protocol: a worker scanning only the first
/// `e1` bytes yields exactly the records that end inside them. A trailing
/// record cut off by the slice's end is discarded quietly — never an
/// error, never a mangled record — to be owned by whoever sees it whole.
pub proof fn lemma_scan_stops_at_slice_end(s: Seq<u8>, pos: int, e1: int)
    requires
        0 <= pos,
        0 <= e1 <= s.len(),
        scan_records(s, pos) is Some,
    ensures
        scan_records(s.take(e1), pos) == Some(scan_records_within(s, pos, e1)),
    decreases s.len() - pos,
{
    let a = s.take(e1);
    match next_record(s, pos) {
        ScanStep::Done => {
            if pos < a.len() && a[pos] != 0 {
                let semi = find_from(s, DELIMITER, pos);
                lemma_find_from(s, DELIMITER, pos);
                lemma_find_from_take(s, DELIMITER, pos, e1);
                if semi == -1 {
                    assert(next_record(a, pos) is Done);
                } else {
                    // The whole scan ended for want of a terminator.
                    let nl = find_from(s, TERMINATOR, semi + 1);
                    lemma_find_from(s, TERMINATOR, semi + 1);
                    if semi < e1 {
                        lemma_find_from_take(s, TERMINATOR, semi + 1, e1);
                        assert(next_record(a, pos) is Done);
                    } else {
                        assert(next_record(a, pos) is Done);
                    }
                }
            }
        },
        ScanStep::Fail { kind } => {},
        ScanStep::Rec { key, value, next } => {
            lemma_next_record_advances(s, pos);
            let semi = find_from(s, DELIMITER, pos);
            let nl = find_from(s, TERMINATOR, semi + 1);
            lemma_find_from(s, DELIMITER, pos);
            lemma_find_from(s, TERMINATOR, semi + 1);
            lemma_find_from_take(s, DELIMITER, pos, e1);
            if next <= e1 {
                // The record is fully inside the slice: same step there.
                lemma_find_from_take(s, TERMINATOR, semi + 1, e1);
                assert(a.subrange(semi + 1, nl) =~= s.subrange(semi + 1, nl));
                assert(a.subrange(pos, semi) =~= s.subrange(pos, semi));
                assert(next_record(a, pos) == (ScanStep::Rec {
                    key: a.subrange(pos, semi),
                    value: value,
                    next: next,
                }));
                lemma_scan_stops_at_slice_end(s, next, e1);
            } else {
                // The record crosses the slice's end: the slice scan stops.
                if pos >= e1 {
                    assert(next_record(a, pos) is Done);
                } else if semi >= e1 {
                    assert(pos + MAX_STATION_NAME_LEN >= e1);
                    assert(next_record(a, pos) is Done);
                } else {
                    lemma_find_from_take(s, TERMINATOR, semi + 1, e1);
                    assert(next_record(a, pos) is Done);
                }
            }
        },
    }
}

/// How a suffix slice shifts a search: occurrences move back by the cut.
proof fn lemma_find_from_shift(s: Seq<u8>, x: u8, c: int, q: int)
    requires
        0 <= q,
        0 <= c <= s.len(),
    ensures
        ({
            let f = find_from(s, x, c + q);
            let fs = find_from(s.subrange(c, s.len() as int), x, q);
            if f == -1 {
                fs == -1
            } else {
                fs == f - c
            }
        }),
{
    let sub = s.subrange(c, s.len() as int);
    let f = find_from(s, x, c + q);
    lemma_find_from(s, x, c + q);
    if f == -1 {
        assert(forall|i: int| q <= i < sub.len() ==> sub[i] != x);
        lemma_find_from_none(sub, x, q);
    } else {
        assert(sub[f - c] == x);
        assert(forall|i: int| q <= i < f - c ==> sub[i] != x);
        lemma_find_from_is(sub, x, q, f - c);
    }
}

/// Scanning a suffix slice is scanning the whole buffer from the cut: the
/// records come out identical, positions merely shifted.
pub proof fn lemma_scan_of_suffix(s: Seq<u8>, c: int, q: int)
    requires
        0 <= q,
        0 <= c <= s.len(),
    ensures
        scan_records(s.subrange(c, s.len() as int), q) == scan_records(s, c + q),
    decreases s.len() - (c + q),
{
    let sub = s.subrange(c, s.len() as int);
    match next_record(s, c + q) {
        ScanStep::Done => {
            if q < sub.len() && sub[q] != 0 {
                lemma_find_from_shift(s, DELIMITER, c, q);
                let semi = find_from(s, DELIMITER, c + q);
                if semi == -1 {
                    assert(next_record(sub, q) is Done);
                } else {
                    lemma_find_from(s, DELIMITER, c + q);
                    lemma_find_from_shift(s, TERMINATOR, c, semi + 1 - c);
                    assert(next_record(sub, q) is Done);
                }
            }
        },
        ScanStep::Fail { kind } => {
            lemma_find_from_shift(s, DELIMITER, c, q);
            let semi = find_from(s, DELIMITER, c + q);
            let fsub = find_from(sub, DELIMITER, q);
            if semi == -1 {
                assert(fsub == -1);
                assert(q + MAX_STATION_NAME_LEN < sub.len());
                assert(next_record(sub, q) == next_record(s, c + q));
            } else if semi > c + q + MAX_STATION_NAME_LEN {
                assert(fsub == semi - c);
                assert(next_record(sub, q) == next_record(s, c + q));
            } else if semi == c + q {
                assert(fsub == q);
                assert(next_record(sub, q) == next_record(s, c + q));
            } else {
                lemma_find_from(s, DELIMITER, c + q);
                lemma_find_from_shift(s, TERMINATOR, c, semi + 1 - c);
                let nl = find_from(s, TERMINATOR, semi + 1);
                lemma_find_from(s, TERMINATOR, semi + 1);
                if nl > semi + 6 {
                    assert(next_record(sub, q) == next_record(s, c + q));
                } else {
                    assert(sub.subrange(semi + 1 - c, nl - c) =~= s.subrange(semi + 1, nl));
                    assert(next_record(sub, q) == next_record(s, c + q));
                }
            }
        },
        ScanStep::Rec { key, value, next } => {
            lemma_next_record_advances(s, c + q);
            lemma_find_from_shift(s, DELIMITER, c, q);
            let semi = find_from(s, DELIMITER, c + q);
            lemma_find_from(s, DELIMITER, c + q);
            lemma_find_from_shift(s, TERMINATOR, c, semi + 1 - c);
            let nl = find_from(s, TERMINATOR, semi + 1);
            lemma_find_from(s, TERMINATOR, semi + 1);
            assert(sub.subrange(semi + 1 - c, nl - c) =~= s.subrange(semi + 1, nl));
            assert(sub.subrange(q, semi - c) =~= s.subrange(c + q, semi));
            assert(next_record(sub, q) == (ScanStep::Rec {
                key: key,
                value: value,
                next: next - c,
            }));
            lemma_scan_of_suffix(s, c, next - c);
        },
    }
}

/// At a record start inside data the naive parser accepts, the scan step
/// is a record ending at the line's own terminator — the first terminator
/// at or after the record's start — and the rest stays acceptable.
proof fn lemma_naive_step(s: Seq<u8>, pos: int)
    requires
        0 <= pos < s.len(),
        s[pos] != 0,
        naive_records(s, pos) is Some,
    ensures
        ({
            let nl = find_from(s, TERMINATOR, pos);
            &&& next_record(s, pos) is Rec
            &&& next_record(s, pos)->Rec_next == nl + 1
            &&& pos < nl < s.len()
            &&& nl <= pos + 57
            &&& s[nl] == TERMINATOR
            &&& forall|i: int| pos <= i < nl ==> s[i] != TERMINATOR
            &&& naive_records(s, nl + 1) is Some
        }),
{
    let nl = find_from(s, TERMINATOR, pos);
    let semi = find_from(s, DELIMITER, pos);
    lemma_find_from(s, TERMINATOR, pos);
    lemma_find_from(s, DELIMITER, pos);
    let token = s.subrange(semi + 1, nl);
    crate::reading::lemma_decode_some_len(token);
    assert(find_from(s, TERMINATOR, semi + 1) == nl) by {
        lemma_find_from_is(s, TERMINATOR, semi + 1, nl);
    };
}

/// With no terminator anywhere in the overlap window, every record the
/// scan yields ends before the window: the stream's data stops there.
proof fn lemma_partition_no_terminator(s: Seq<u8>, pos: int, c: int)
    requires
        0 <= pos <= c,
        c + (BUFFER_OVERLAP as int) <= s.len(),
        forall|i: int| c <= i < c + BUFFER_OVERLAP ==> s[i] != TERMINATOR,
        naive_records(s, pos) is Some,
    ensures
        scan_records(s, pos) is Some,
        scan_records(s, pos).unwrap() == scan_records_within(s, pos, c + BUFFER_OVERLAP),
    decreases s.len() - pos,
{
    lemma_scan_matches_naive(s, pos);
    if pos < s.len() && s[pos] != 0 {
        lemma_naive_step(s, pos);
        let nl = find_from(s, TERMINATOR, pos);
        assert(nl < c) by {
            if nl >= c {
                assert(s[nl] != TERMINATOR);
            }
        };
        lemma_partition_no_terminator(s, nl + 1, c);
        lemma_scan_matches_naive(s, nl + 1);
    }
}

/// With `labs` the last terminator in the overlap window, the scan from
/// any position at or before `labs + 1` splits exactly there: the records
/// ending by `labs` land inside the window's slice, and the scan resumed
/// at `labs + 1` yields precisely the rest.
proof fn lemma_partition_at_terminator(s: Seq<u8>, pos: int, c: int, labs: int)
    requires
        0 <= pos <= labs + 1,
        c <= labs < c + BUFFER_OVERLAP,
        c + (BUFFER_OVERLAP as int) <= s.len(),
        s[labs] == TERMINATOR,
        forall|i: int| labs < i < c + BUFFER_OVERLAP ==> s[i] != TERMINATOR,
        naive_records(s, pos) is Some,
    ensures
        scan_records(s, pos) is Some,
        scan_records(s, labs + 1) is Some,
        scan_records(s, pos).unwrap() == scan_records_within(s, pos, c + BUFFER_OVERLAP)
            + scan_records(s, labs + 1).unwrap(),
    decreases s.len() - pos,
{
    lemma_scan_matches_naive(s, pos);
    let rs = scan_records(s, pos).unwrap();
    if pos >= s.len() || s[pos] == 0 {
        // The data ends here; the terminator at `labs` forces this to be
        // just past it.
        assert(pos == labs + 1) by {
            if pos <= labs {
                assert(s[labs] == 0);
            }
        };
        assert(rs =~= scan_records_within(s, pos, c + BUFFER_OVERLAP) + scan_records(
            s,
            labs + 1,
        ).unwrap());
    } else {
        lemma_naive_step(s, pos);
        let nl = find_from(s, TERMINATOR, pos);
        if nl <= labs {
            lemma_partition_at_terminator(s, nl + 1, c, labs);
            lemma_scan_matches_naive(s, nl + 1);
            assert(rs =~= scan_records_within(s, pos, c + BUFFER_OVERLAP) + scan_records(
                s,
                labs + 1,
            ).unwrap());
        } else {
            // The record at `pos` ends past the whole window, so it must
            // start just past `labs`, and the window slice owns nothing
            // more.
            assert(nl >= c + BUFFER_OVERLAP) by {
                if nl < c + BUFFER_OVERLAP {
                    assert(s[nl] != TERMINATOR);
                }
            };
            assert(pos == labs + 1) by {
                if pos <= labs {
                    assert(s[labs] != TERMINATOR);
                }
            };
            assert(scan_records_within(s, pos, c + BUFFER_OVERLAP) =~= Seq::<Record>::empty());
            assert(rs =~= scan_records_within(s, pos, c + BUFFER_OVERLAP) + scan_records(
                s,
                labs + 1,
            ).unwrap());
        }
    }
}

/// Shard coverage: cutting a buffer the way the shard coordinator does —
/// the leading worker sees everything up to the boundary plus the overlap,
/// the trailing worker re-derives its start from the last terminator in
/// that overlap (the trailing shard's derived scan start) — loses no
/// record and duplicates none. The two workers' record sequences
/// concatenate to exactly the whole buffer's scan.
pub proof fn lemma_shard_partition(s: Seq<u8>, pos: int, c: int)
    requires
        0 <= pos <= c,
        c + (BUFFER_OVERLAP as int) <= s.len(),
        naive_records(s, pos) is Some,
    ensures
        scan_records(s, pos) is Some,
        scan_records(s.take(c + BUFFER_OVERLAP), pos) is Some,
        ({
            let sub = s.subrange(c, s.len() as int);
            let lrel = rfind_before(sub, TERMINATOR, BUFFER_OVERLAP as int);
            let start = if lrel >= 0 {
                lrel + 1
            } else {
                sub.len() as int
            };
            &&& scan_records(sub, start) is Some
            &&& scan_records(s, pos).unwrap() == scan_records(s.take(c + BUFFER_OVERLAP), pos).unwrap()
                + scan_records(sub, start).unwrap()
        }),
{
    let e1 = c + (BUFFER_OVERLAP as int);
    let sub = s.subrange(c, s.len() as int);
    let lrel = rfind_before(sub, TERMINATOR, BUFFER_OVERLAP as int);
    lemma_rfind_before(sub, TERMINATOR, BUFFER_OVERLAP as int);
    lemma_scan_matches_naive(s, pos);
    lemma_scan_stops_at_slice_end(s, pos, e1);
    if lrel >= 0 {
        let labs = c + lrel;
        assert(s[labs] == TERMINATOR);
        assert forall|i: int| labs < i < e1 implies s[i] != TERMINATOR by {
            assert(sub[i - c] != TERMINATOR);
        }
        lemma_partition_at_terminator(s, pos, c, labs);
        lemma_scan_of_suffix(s, c, lrel + 1);
    } else {
        assert forall|i: int| c <= i < e1 implies s[i] != TERMINATOR by {
            assert(sub[i - c] != TERMINATOR);
        }
        lemma_partition_no_terminator(s, pos, c);
        lemma_scan_of_suffix(s, c, sub.len() as int);
        assert(scan_records(s, s.len() as int) == Some(Seq::<Record>::empty()));
        assert(scan_records(s, pos).unwrap() =~= scan_records(s, pos).unwrap() + Seq::<
            Record,
        >::empty());
    }
}

/// Shard coverage at the table level: the two workers' tables combine
/// pointwise to exactly the whole buffer's table.
pub proof fn lemma_shard_tables_merge(s: Seq<u8>, pos: int, c: int)
    requires
        0 <= pos <= c,
        c + (BUFFER_OVERLAP as int) <= s.len(),
        naive_records(s, pos) is Some,
    ensures
        scan_records(s, pos) is Some,
        scan_records(s.take(c + BUFFER_OVERLAP), pos) is Some,
        ({
            let sub = s.subrange(c, s.len() as int);
            let lrel = rfind_before(sub, TERMINATOR, BUFFER_OVERLAP as int);
            let start = if lrel >= 0 {
                lrel + 1
            } else {
                sub.len() as int
            };
            &&& scan_records(sub, start) is Some
            &&& table_of(scan_records(s, pos).unwrap()) == map_merge(
                table_of(scan_records(s.take(c + BUFFER_OVERLAP), pos).unwrap()),
                table_of(scan_records(sub, start).unwrap()),
            )
        }),
{
    lemma_shard_partition(s, pos, c);
    let sub = s.subrange(c, s.len() as int);
    let lrel = rfind_before(sub, TERMINATOR, BUFFER_OVERLAP as int);
    let start = if lrel >= 0 {
        lrel + 1
    } else {
        sub.len() as int
    };
    lemma_scan_records_wf(sub, start);
    lemma_table_of_concat(
        scan_records(s.take(c + BUFFER_OVERLAP), pos).unwrap(),
        scan_records(sub, start).unwrap(),
    );
}

} // verus!

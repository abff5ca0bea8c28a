//! Driving a scanner into a table.
//!
//! The driver pulls records from a scanner and applies each to an
//! aggregation table. On success the table's map is exactly the fold of the
//! buffer's record stream; a malformed stream or a full table aborts the
//! whole pass with the matching error.

use vstd::prelude::*;
use crate::error::{BarseError, BarseErrorKind};
use crate::laws::{
    lemma_full_means_overflow, lemma_scan_records_wf, lemma_table_of_push, records_wf, table_of,
};
use crate::records::{
    lemma_next_record_advances, lemma_next_record_value_range, rfind_before, scan_error,
    scan_records, Record, TERMINATOR,
};
use crate::scanner::{Scanner, BUFFER_OVERLAP, BYTES_PER_BUFFER};
use crate::str_hash::TABLE_SIZE;
use crate::summary::SummaryView;
use crate::table::WeatherStationTable;

verus! {

/// Pulls every remaining record out of `scanner` and applies it to the
/// empty `table`. On success the table holds exactly the fold of the
/// scanned records; otherwise the error names the first malformed step, or
/// the table filled up because the stream holds more distinct keys than
/// slots.
#[verifier::loop_isolation(false)]
#[verifier::rlimit(100)]
pub fn fill_from_scanner(scanner: &mut Scanner, table: &mut WeatherStationTable) -> (r: Result<
    (),
    BarseError,
>)
    requires
        old(scanner).wf(),
        old(scanner).buf().len() < u32::MAX,
        old(table).wf(),
        old(table)@ == Map::<Seq<u8>, SummaryView>::empty(),
    ensures
        final(table).wf(),
        final(table).size() == old(table).size(),
        match r {
            Ok(()) => {
                &&& scan_records(old(scanner).buf(), old(scanner).pos()) is Some
                &&& final(table)@ == table_of(
                    scan_records(old(scanner).buf(), old(scanner).pos()).unwrap(),
                )
            },
            Err(e) => {
                ||| scan_error(old(scanner).buf(), old(scanner).pos()) == Some(e.kind)
                ||| {
                    &&& e.kind == BarseErrorKind::TableFull
                    &&& (scan_records(old(scanner).buf(), old(scanner).pos()) matches Some(rs)
                        ==> table_of(rs).dom().len() > old(table).size())
                }
            },
        },
        (scan_records(old(scanner).buf(), old(scanner).pos()) matches Some(rs) && table_of(
            rs,
        ).dom().len() <= old(table).size()) ==> r is Ok,
{
    let ghost s = scanner.buf();
    let ghost start = scanner.pos();
    let ghost mut consumed: Seq<Record> = Seq::empty();
    proof {
        scanner.lemma_pos_in_range();
        assert(table_of(consumed) =~= Map::<Seq<u8>, SummaryView>::empty());
        if scan_records(s, start) is Some {
            assert(consumed + scan_records(s, start).unwrap() =~= scan_records(s, start).unwrap());
        }
    }
    loop
        invariant
            scanner.wf(),
            scanner.buf() == s,
            0 <= start <= scanner.pos() <= s.len(),
            table.wf(),
            table.size() == old(table).size(),
            table@ == table_of(consumed),
            records_wf(consumed),
            consumed.len() + start <= scanner.pos(),
            forall|k: Seq<u8>|
                #[trigger] table@.dom().contains(k) ==> table@[k].count <= consumed.len(),
            match scan_records(s, scanner.pos()) {
                Some(rest) => scan_records(s, start) == Some(consumed + rest),
                None => scan_records(s, start) is None,
            },
            scan_error(s, start) == scan_error(s, scanner.pos()),
        decreases s.len() - scanner.pos(),
    {
        let ghost p = scanner.pos();
        let ghost table0 = table@;
        match scanner.next() {
            Ok(Some((ks, ke, v))) => {
                proof {
                    lemma_next_record_advances(s, p);
                    lemma_next_record_value_range(s, p);
                    scanner.lemma_pos_in_range();
                }
                let key_slice = scanner.key_slice(ks, ke);
                let ghost rec = Record { key: s.subrange(ks as int, ke as int), value: v@ };
                match table.add_reading(key_slice, v) {
                    Ok(()) => {
                        proof {
                            lemma_table_of_push(consumed, rec);
                            let consumed2 = consumed.push(rec);
                            assert(table@ == table_of(consumed2));
                            assert forall|k: Seq<u8>|
                                #[trigger] table@.dom().contains(k) implies table@[k].count
                                <= consumed2.len() by {
                                if k != rec.key {
                                    assert(table0.dom().contains(k) && table@[k] == table0[k]);
                                }
                            }
                            match scan_records(s, scanner.pos()) {
                                Some(rest2) => {
                                    assert(scan_records(s, p) == Some(
                                        seq![rec].add(rest2),
                                    ));
                                    assert(consumed + (seq![rec] + rest2) =~= consumed2 + rest2);
                                },
                                None => {
                                    assert(scan_records(s, p) is None);
                                },
                            }
                            consumed = consumed2;
                        }
                    },
                    Err(e) => {
                        proof {
                            if scan_records(s, start) is Some {
                                let rest = scan_records(s, p).unwrap();
                                let rest2 = scan_records(s, scanner.pos()).unwrap();
                                assert(rest == seq![rec] + rest2);
                                lemma_scan_records_wf(s, p);
                                assert(records_wf(seq![rec] + rest2));
                                lemma_full_means_overflow(
                                    consumed,
                                    rec,
                                    rest2,
                                    old(table).size(),
                                );
                                assert(consumed + (seq![rec] + rest2) == scan_records(
                                    s,
                                    start,
                                ).unwrap());
                            }
                        }
                        return Err(e);
                    },
                }
            },
            Ok(None) => {
                proof {
                    assert(scan_records(s, p) == Some(Seq::<Record>::empty()));
                    assert(consumed + Seq::<Record>::empty() =~= consumed);
                }
                return Ok(());
            },
            Err(e) => {
                return Err(e);
            },
        }
    }
}

/// Builds the aggregation table for a whole padded buffer: one scan from
/// the first byte, every record applied. On success the table is exactly
/// the fold of the buffer's record stream.
pub fn build_temperature_reading_table_from_bytes(input: &[u8]) -> (r: Result<
    WeatherStationTable,
    BarseError,
>)
    requires
        input@.len() % (BYTES_PER_BUFFER as nat) == 0,
        input@.len() < u32::MAX,
    ensures
        match r {
            Ok(t) => {
                &&& t.wf()
                &&& t.size() == TABLE_SIZE
                &&& scan_records(input@, 0) is Some
                &&& t@ == table_of(scan_records(input@, 0).unwrap())
            },
            Err(e) => {
                ||| scan_error(input@, 0) == Some(e.kind)
                ||| {
                    &&& e.kind == BarseErrorKind::TableFull
                    &&& (scan_records(input@, 0) matches Some(rs) ==> table_of(rs).dom().len()
                        > TABLE_SIZE)
                }
            },
        },
        (scan_records(input@, 0) matches Some(rs) && table_of(rs).dom().len() <= TABLE_SIZE)
            ==> r is Ok,
{
    let mut scanner = Scanner::from_start(input);
    let mut table = WeatherStationTable::new(TABLE_SIZE);
    match fill_from_scanner(&mut scanner, &mut table) {
        Ok(()) => Ok(table),
        Err(e) => Err(e),
    }
}

/// Where a shard's scan begins: the first shard at its first byte, every
/// later shard just past the last record terminator inside its overlap
/// prefix — or nowhere, when the overlap holds no terminator.
pub open spec fn shard_scan_start(sub: Seq<u8>, first: bool) -> int {
    if first {
        0
    } else {
        let last = rfind_before(sub, TERMINATOR, BUFFER_OVERLAP as int);
        if last >= 0 {
            last + 1
        } else {
            sub.len() as int
        }
    }
}

/// Builds one shard's table: the first shard is scanned from its first
/// byte, every later shard from just past the last terminator in its
/// overlap prefix, so a record straddling the nominal boundary is counted
/// by exactly one shard. On success the table is the fold of exactly the
/// records the shard owns.
pub fn build_shard_table(shard: &[u8], first: bool) -> (r: Result<WeatherStationTable, BarseError>)
    requires
        shard@.len() % (BYTES_PER_BUFFER as nat) == 0,
        shard@.len() < u32::MAX,
        !first ==> shard@.len() >= BUFFER_OVERLAP,
    ensures
        match r {
            Ok(t) => {
                &&& t.wf()
                &&& t.size() == TABLE_SIZE
                &&& scan_records(shard@, shard_scan_start(shard@, first)) is Some
                &&& t@ == table_of(scan_records(shard@, shard_scan_start(shard@, first)).unwrap())
            },
            Err(e) => {
                ||| scan_error(shard@, shard_scan_start(shard@, first)) == Some(e.kind)
                ||| {
                    &&& e.kind == BarseErrorKind::TableFull
                    &&& (scan_records(shard@, shard_scan_start(shard@, first)) matches Some(rs)
                        ==> table_of(rs).dom().len() > TABLE_SIZE)
                }
            },
        },
        (scan_records(shard@, shard_scan_start(shard@, first)) matches Some(rs) && table_of(
            rs,
        ).dom().len() <= TABLE_SIZE) ==> r is Ok,
{
    let mut scanner = if first {
        Scanner::from_start(shard)
    } else {
        Scanner::from_midpoint(shard)
    };
    let mut table = WeatherStationTable::new(TABLE_SIZE);
    proof {
        if !first {
            assert(scanner.pos() == shard_scan_start(shard@, first));
        }
    }
    match fill_from_scanner(&mut scanner, &mut table) {
        Ok(()) => Ok(table),
        Err(e) => Err(e),
    }
}

} // verus!

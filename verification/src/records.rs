//! The mathematical model of the record stream.
//!
//! `next_record` says what one scan step over a buffer yields at a given
//! position: the end of the data, a malformed-input failure, or a record and
//! the position after it. `scan_records` chains steps into the full record
//! sequence, and `naive_records` is the line-split reference parser that the
//! windowed scanner is proved against.

use vstd::prelude::*;
use crate::error::BarseErrorKind;
use crate::reading::spec_decode;

verus! {

/// The key/value delimiter byte (`;`).
pub const DELIMITER: u8 = 59;

/// The record terminator byte (`\n`).
pub const TERMINATOR: u8 = 10;

/// Longest legal key, in bytes.
pub const MAX_STATION_NAME_LEN: usize = 50;

/// The first position at or after `from` holding byte `b`, or `-1`.
pub open spec fn find_from(s: Seq<u8>, b: u8, from: int) -> int
    decreases s.len() - from,
{
    if from < 0 || from >= s.len() {
        -1
    } else if s[from] == b {
        from
    } else {
        find_from(s, b, from + 1)
    }
}

/// What `find_from` returns: the first occurrence, or `-1` when there is
/// none at or after `from`.
pub proof fn lemma_find_from(s: Seq<u8>, b: u8, from: int)
    requires
        0 <= from,
    ensures
        find_from(s, b, from) == -1 ==> forall|i: int| from <= i < s.len() ==> s[i] != b,
        find_from(s, b, from) != -1 ==> {
            &&& from <= find_from(s, b, from) < s.len()
            &&& s[find_from(s, b, from)] == b
            &&& forall|i: int| from <= i < find_from(s, b, from) ==> s[i] != b
        },
    decreases s.len() - from,
{
    if from < s.len() && s[from] != b {
        lemma_find_from(s, b, from + 1);
    }
}

/// The converse: a first occurrence pins `find_from` down.
pub proof fn lemma_find_from_is(s: Seq<u8>, b: u8, from: int, j: int)
    requires
        0 <= from <= j < s.len(),
        s[j] == b,
        forall|i: int| from <= i < j ==> s[i] != b,
    ensures
        find_from(s, b, from) == j,
    decreases j - from,
{
    if from < j {
        lemma_find_from_is(s, b, from + 1, j);
    }
}

/// The converse for absence: no occurrence means `-1`.
pub proof fn lemma_find_from_none(s: Seq<u8>, b: u8, from: int)
    requires
        0 <= from,
        forall|i: int| from <= i < s.len() ==> s[i] != b,
    ensures
        find_from(s, b, from) == -1,
    decreases s.len() - from,
{
    if from < s.len() {
        lemma_find_from_none(s, b, from + 1);
    }
}

/// The last position before `upto` holding byte `b`, or `-1`.
pub open spec fn rfind_before(s: Seq<u8>, b: u8, upto: int) -> int
    decreases upto,
{
    if upto <= 0 || upto > s.len() {
        -1
    } else if s[upto - 1] == b {
        upto - 1
    } else {
        rfind_before(s, b, upto - 1)
    }
}

/// What `rfind_before` returns: the last occurrence before `upto`, or
/// `-1` when there is none.
pub proof fn lemma_rfind_before(s: Seq<u8>, b: u8, upto: int)
    requires
        0 <= upto <= s.len(),
    ensures
        rfind_before(s, b, upto) == -1 ==> forall|i: int| 0 <= i < upto ==> s[i] != b,
        rfind_before(s, b, upto) != -1 ==> {
            &&& 0 <= rfind_before(s, b, upto) < upto
            &&& s[rfind_before(s, b, upto)] == b
            &&& forall|i: int| rfind_before(s, b, upto) < i < upto ==> s[i] != b
        },
    decreases upto,
{
    if upto > 0 && s[upto - 1] != b {
        lemma_rfind_before(s, b, upto - 1);
    }
}

/// The converse for `rfind_before`: a last occurrence pins it down.
pub proof fn lemma_rfind_before_is(s: Seq<u8>, b: u8, upto: int, j: int)
    requires
        0 <= j < upto <= s.len(),
        s[j] == b,
        forall|i: int| j < i < upto ==> s[i] != b,
    ensures
        rfind_before(s, b, upto) == j,
    decreases upto - j,
{
    if j < upto - 1 {
        lemma_rfind_before_is(s, b, upto - 1, j);
    }
}

/// The converse for absence: no occurrence before `upto` means `-1`.
pub proof fn lemma_rfind_before_none(s: Seq<u8>, b: u8, upto: int)
    requires
        upto <= s.len(),
        forall|i: int| 0 <= i < upto ==> s[i] != b,
    ensures
        rfind_before(s, b, upto) == -1,
    decreases upto,
{
    if upto > 0 {
        lemma_rfind_before_none(s, b, upto - 1);
    }
}

/// One record: its key bytes and its decoded scaled value.
pub ghost struct Record {
    pub key: Seq<u8>,
    pub value: int,
}

/// The outcome of one scan step.
pub ghost enum ScanStep {
    /// The stream is exhausted: the position is at the end of the buffer or
    /// on a zero padding byte.
    Done,
    /// The bytes at the position are not a record.
    Fail { kind: BarseErrorKind },
    /// A record, and the position just past its terminator.
    Rec { key: Seq<u8>, value: int, next: int },
}

/// What one scan step yields at position `pos`. Exhaustion ends the scan
/// quietly: no delimiter before the buffer runs out of room for a legal
/// key, or no terminator anywhere after the delimiter, is the stream's end
/// (a trailing partial record is discarded, to be owned by the shard that
/// sees it whole). A delimiter or terminator that does exist but lies
/// beyond its bound, an empty key, or an undecodable token are errors.
pub open spec fn next_record(s: Seq<u8>, pos: int) -> ScanStep
    recommends
        0 <= pos,
{
    if pos >= s.len() || s[pos] == 0 {
        ScanStep::Done
    } else {
        let semi = find_from(s, DELIMITER, pos);
        if semi == -1 {
            if pos + MAX_STATION_NAME_LEN >= s.len() {
                ScanStep::Done
            } else {
                ScanStep::Fail { kind: BarseErrorKind::MissingDelimiter }
            }
        } else if semi > pos + MAX_STATION_NAME_LEN {
            ScanStep::Fail { kind: BarseErrorKind::MissingDelimiter }
        } else if semi == pos {
            ScanStep::Fail { kind: BarseErrorKind::MalformedRecord }
        } else {
            let nl = find_from(s, TERMINATOR, semi + 1);
            if nl == -1 {
                ScanStep::Done
            } else if nl > semi + 6 {
                ScanStep::Fail { kind: BarseErrorKind::MissingTerminator }
            } else {
                match spec_decode(s.subrange(semi + 1, nl)) {
                    Some(v) => ScanStep::Rec {
                        key: s.subrange(pos, semi),
                        value: v,
                        next: nl + 1,
                    },
                    None => ScanStep::Fail { kind: BarseErrorKind::MalformedRecord },
                }
            }
        }
    }
}

/// A record step moves the position strictly forward, and not past the end.
pub proof fn lemma_next_record_advances(s: Seq<u8>, pos: int)
    requires
        0 <= pos,
        next_record(s, pos) is Rec,
    ensures
        pos < next_record(s, pos)->Rec_next <= s.len(),
        1 <= next_record(s, pos)->Rec_key.len() <= MAX_STATION_NAME_LEN,
{
    lemma_find_from(s, DELIMITER, pos);
    let semi = find_from(s, DELIMITER, pos);
    lemma_find_from(s, TERMINATOR, semi + 1);
}

/// All records from position `pos` on, or `None` if the scan hits bytes
/// that are not a record.
pub open spec fn scan_records(s: Seq<u8>, pos: int) -> Option<Seq<Record>>
    decreases s.len() - pos,
    when 0 <= pos
    via scan_records_decreases
{
    match next_record(s, pos) {
        ScanStep::Done => Some(Seq::empty()),
        ScanStep::Fail { kind } => None,
        ScanStep::Rec { key, value, next } => match scan_records(s, next) {
            Some(rest) => Some(seq![Record { key, value }].add(rest)),
            None => None,
        },
    }
}

#[via_fn]
proof fn scan_records_decreases(s: Seq<u8>, pos: int) {
    if next_record(s, pos) is Rec {
        lemma_next_record_advances(s, pos);
    }
}

/// A record's value is a legal scaled reading.
pub proof fn lemma_next_record_value_range(s: Seq<u8>, pos: int)
    requires
        0 <= pos,
        next_record(s, pos) is Rec,
    ensures
        crate::reading::MIN_READING <= next_record(s, pos)->Rec_value
            <= crate::reading::MAX_READING,
{
    let semi = find_from(s, DELIMITER, pos);
    let nl = find_from(s, TERMINATOR, semi + 1);
    crate::reading::lemma_decode_in_range(s.subrange(semi + 1, nl));
}

/// The kind of the first malformed step, if the scan from `pos` fails.
pub open spec fn scan_error(s: Seq<u8>, pos: int) -> Option<BarseErrorKind>
    decreases s.len() - pos,
    when 0 <= pos
    via scan_error_decreases
{
    match next_record(s, pos) {
        ScanStep::Done => None,
        ScanStep::Fail { kind } => Some(kind),
        ScanStep::Rec { key, value, next } => scan_error(s, next),
    }
}

#[via_fn]
proof fn scan_error_decreases(s: Seq<u8>, pos: int) {
    if next_record(s, pos) is Rec {
        lemma_next_record_advances(s, pos);
    }
}

/// The records of the stream from `pos` that end strictly inside the
/// first `e1` bytes: what a worker owning that prefix must yield.
pub open spec fn scan_records_within(s: Seq<u8>, pos: int, e1: int) -> Seq<Record>
    decreases s.len() - pos,
    when 0 <= pos
    via scan_records_within_decreases
{
    match next_record(s, pos) {
        ScanStep::Rec { key, value, next } => if next <= e1 {
            seq![Record { key, value }].add(scan_records_within(s, next, e1))
        } else {
            Seq::empty()
        },
        _ => Seq::empty(),
    }
}

#[via_fn]
proof fn scan_records_within_decreases(s: Seq<u8>, pos: int, e1: int) {
    if next_record(s, pos) is Rec {
        lemma_next_record_advances(s, pos);
    }
}

/// The naive line-split reference parser: take the bytes up to the next
/// terminator as a line, split the line at the delimiter, decode the rest,
/// and repeat; trailing zero padding ends the stream.
pub open spec fn naive_records(s: Seq<u8>, pos: int) -> Option<Seq<Record>>
    decreases s.len() - pos,
    when 0 <= pos
    via naive_records_decreases
{
    if pos >= s.len() {
        Some(Seq::empty())
    } else if s[pos] == 0 {
        if forall|i: int| pos <= i < s.len() ==> s[i] == 0 {
            Some(Seq::empty())
        } else {
            None
        }
    } else {
        let nl = find_from(s, TERMINATOR, pos);
        if nl == -1 {
            None
        } else {
            let semi = find_from(s, DELIMITER, pos);
            if semi == -1 || semi >= nl || !(pos + 1 <= semi <= pos + MAX_STATION_NAME_LEN) {
                None
            } else {
                match crate::reading::spec_decode(s.subrange(semi + 1, nl)) {
                    None => None,
                    Some(v) => match naive_records(s, nl + 1) {
                        Some(rest) => Some(
                            seq![Record { key: s.subrange(pos, semi), value: v }].add(rest),
                        ),
                        None => None,
                    },
                }
            }
        }
    }
}

#[via_fn]
proof fn naive_records_decreases(s: Seq<u8>, pos: int) {
    if 0 <= pos < s.len() && s[pos] != 0 {
        lemma_find_from(s, TERMINATOR, pos);
    }
}

} // verus!

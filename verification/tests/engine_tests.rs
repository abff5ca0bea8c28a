use barse::build_table::{
    build_shard_table, build_temperature_reading_table_from_bytes, fill_from_scanner,
};
use barse::error::BarseErrorKind;
use barse::reading::TemperatureReading;
use barse::report::render_report;
use barse::scanner::Scanner;
use barse::str_hash::TABLE_SIZE;
use barse::slicer::{Slicer, CHUNK_SIZE};
use barse::summary::TemperatureSummary;
use barse::table::WeatherStationTable;

/// Pads an input with zero bytes up to whole scan windows.
fn padded(input: &str) -> Vec<u8> {
    let mut buf = input.as_bytes().to_vec();
    while buf.len() % 16 != 0 {
        buf.push(0);
    }
    buf
}

fn report_of(input: &str) -> String {
    let buf = padded(input);
    let table = build_temperature_reading_table_from_bytes(&buf).unwrap();
    String::from_utf8(render_report(&table)).unwrap()
}

#[test]
fn scenario_three_records() {
    assert_eq!(
        report_of("Hamburg;12.0\nHamburg;8.0\nPorto;-3.5\n"),
        "{Hamburg=8.0/10.0/12.0, Porto=-3.5/-3.5/-3.5}"
    );
}

#[test]
fn scenario_single_record() {
    assert_eq!(report_of("X;0.0\n"), "{X=0.0/0.0/0.0}");
}

#[test]
fn scenario_two_shards_merge_like_whole() {
    let buf1 = padded("A;1.0\nB;2.0\n");
    let buf2 = padded("C;3.0\n");
    let mut t1 = build_temperature_reading_table_from_bytes(&buf1).unwrap();
    let t2 = build_temperature_reading_table_from_bytes(&buf2).unwrap();
    t1.merge(&t2).unwrap();
    let merged = String::from_utf8(render_report(&t1)).unwrap();
    assert_eq!(merged, report_of("A;1.0\nB;2.0\nC;3.0\n"));
}

#[test]
fn scenario_key_across_shards_accumulates() {
    let buf1 = padded("A;1.0\nB;2.0\n");
    let buf2 = padded("A;5.0\n");
    let mut t1 = build_temperature_reading_table_from_bytes(&buf1).unwrap();
    let t2 = build_temperature_reading_table_from_bytes(&buf2).unwrap();
    t1.merge(&t2).unwrap();
    let merged = String::from_utf8(render_report(&t1)).unwrap();
    assert_eq!(merged, "{A=1.0/3.0/5.0, B=2.0/2.0/2.0}");
    assert_eq!(merged, report_of("A;1.0\nB;2.0\nA;5.0\n"));
}

#[test]
fn permuted_lines_give_identical_reports() {
    let expected = report_of("Hamburg;12.0\nHamburg;8.0\nPorto;-3.5\n");
    assert_eq!(report_of("Hamburg;8.0\nPorto;-3.5\nHamburg;12.0\n"), expected);
    assert_eq!(report_of("Porto;-3.5\nHamburg;12.0\nHamburg;8.0\n"), expected);
    assert_eq!(report_of("Porto;-3.5\nHamburg;8.0\nHamburg;12.0\n"), expected);
}

#[test]
fn chunked_merges_in_any_order_give_the_whole() {
    let whole = report_of("A;1.0\nB;2.0\nA;5.0\nC;-1.5\n");
    let chunks = ["A;1.0\n", "B;2.0\nA;5.0\n", "C;-1.5\n"];
    let tables: Vec<WeatherStationTable> = chunks
        .iter()
        .map(|c| build_temperature_reading_table_from_bytes(&padded(c)).unwrap())
        .collect();

    let mut left = WeatherStationTable::new(TABLE_SIZE);
    for t in tables.iter() {
        left.merge(t).unwrap();
    }
    assert_eq!(String::from_utf8(render_report(&left)).unwrap(), whole);

    let mut right = WeatherStationTable::new(TABLE_SIZE);
    for t in tables.iter().rev() {
        right.merge(t).unwrap();
    }
    assert_eq!(String::from_utf8(render_report(&right)).unwrap(), whole);
}

#[test]
fn rounding_follows_half_away_from_zero() {
    let zero = TemperatureSummary {
        min: TemperatureReading::new(0),
        max: TemperatureReading::new(0),
        total: 0,
        count: 3,
    };
    assert_eq!(zero.avg().reading(), 0);

    let fourteen_thirds = TemperatureSummary {
        min: TemperatureReading::new(4),
        max: TemperatureReading::new(6),
        total: 14,
        count: 3,
    };
    assert_eq!(fourteen_thirds.avg().reading(), 5);

    let mut accumulated = TemperatureSummary::new();
    accumulated.add_reading(TemperatureReading::new(4));
    accumulated.add_reading(TemperatureReading::new(4));
    accumulated.add_reading(TemperatureReading::new(6));
    assert_eq!(accumulated.avg().reading(), 5);

    let negative = TemperatureSummary {
        min: TemperatureReading::new(-6),
        max: TemperatureReading::new(-4),
        total: -14,
        count: 3,
    };
    assert_eq!(negative.avg().reading(), -5);
}

#[test]
fn boundary_key_and_values() {
    let long_key = "K".repeat(50);
    let input = format!("{long_key};-99.9\nL;99.9\n");
    let expected = format!("{{{long_key}=-99.9/-99.9/-99.9, L=99.9/99.9/99.9}}");
    assert_eq!(report_of(&input), expected);
}

#[test]
fn scanner_yields_each_record_with_its_span() {
    let buf = padded("Ab;20.8\nCd;1.9\n");
    let mut scanner = Scanner::from_start(&buf);

    let (ks, ke, v) = scanner.next().unwrap().unwrap();
    assert_eq!(&buf[ks..ke], b"Ab");
    assert_eq!(v.reading(), 208);

    let (ks, ke, v) = scanner.next().unwrap().unwrap();
    assert_eq!(&buf[ks..ke], b"Cd");
    assert_eq!(v.reading(), 19);

    assert_eq!(scanner.next().unwrap(), None);
}

#[test]
fn scanner_key_may_span_windows() {
    let buf = padded("Abcdefghijklmnopqrstuvwxyz123;-23.4\nNew Buffer;3.4\n");
    let mut scanner = Scanner::from_start(&buf);

    let (ks, ke, v) = scanner.next().unwrap().unwrap();
    assert_eq!(&buf[ks..ke], b"Abcdefghijklmnopqrstuvwxyz123");
    assert_eq!(v.reading(), -234);

    let (ks, ke, v) = scanner.next().unwrap().unwrap();
    assert_eq!(&buf[ks..ke], b"New Buffer");
    assert_eq!(v.reading(), 34);

    assert_eq!(scanner.next().unwrap(), None);
}

#[test]
fn from_midpoint_starts_after_the_overlap() {
    let input = "city1;3.4\ncity2;5.6\ncity3;7.8\nciti4;9.0\ncity6;0.1\ncity7;2.3\ncity8;4.5\n";
    let mut buf = padded(input);
    while buf.len() < 128 {
        buf.push(0);
    }
    let mut scanner = Scanner::from_midpoint(&buf);

    let (ks, ke, v) = scanner.next().unwrap().unwrap();
    assert_eq!(&buf[ks..ke], b"city8");
    assert_eq!(v.reading(), 45);

    assert_eq!(scanner.next().unwrap(), None);
}

#[test]
fn sharded_scan_via_midpoint_matches_whole() {
    // One record straddles the nominal boundary at byte 64: the first
    // worker sees it whole through the overlap, the second skips it.
    let mut input = String::new();
    for i in 0..9 {
        input.push_str(&format!("station{i};{i}.{i}\n"));
    }
    let buf = {
        let mut b = input.as_bytes().to_vec();
        while b.len() % 16 != 0 || b.len() < 192 {
            b.push(0);
        }
        b
    };

    let whole = {
        let table = build_temperature_reading_table_from_bytes(&buf).unwrap();
        String::from_utf8(render_report(&table)).unwrap()
    };

    let boundary = 64;
    let first = &buf[..boundary + 64];
    let second = &buf[boundary..];
    let mut t1 = WeatherStationTable::new(TABLE_SIZE);
    let mut s1 = Scanner::from_start(first);
    fill_from_scanner(&mut s1, &mut t1).unwrap();
    let mut t2 = WeatherStationTable::new(TABLE_SIZE);
    let mut s2 = Scanner::from_midpoint(second);
    fill_from_scanner(&mut s2, &mut t2).unwrap();
    t1.merge(&t2).unwrap();
    assert_eq!(String::from_utf8(render_report(&t1)).unwrap(), whole);
}

#[test]
fn shard_builders_partition_the_stream() {
    let mut input = String::new();
    for i in 0..9 {
        input.push_str(&format!("station{i};{i}.{i}\n"));
    }
    let buf = {
        let mut b = input.as_bytes().to_vec();
        while b.len() % 16 != 0 || b.len() < 192 {
            b.push(0);
        }
        b
    };
    let whole = {
        let table = build_temperature_reading_table_from_bytes(&buf).unwrap();
        String::from_utf8(render_report(&table)).unwrap()
    };

    let boundary = 64;
    let mut t1 = build_shard_table(&buf[..boundary + 64], true).unwrap();
    let t2 = build_shard_table(&buf[boundary..], false).unwrap();
    t1.merge(&t2).unwrap();
    assert_eq!(String::from_utf8(render_report(&t1)).unwrap(), whole);
}

#[test]
fn errors_name_what_is_missing() {
    let too_long = padded(&format!("{};1.0\n", "K".repeat(51)));
    let mut scanner = Scanner::from_start(&too_long);
    assert_eq!(scanner.next().unwrap_err().kind, BarseErrorKind::MissingDelimiter);

    // No delimiter at all although a whole key's worth of bytes is there.
    let no_delimiter = padded(&"K".repeat(64));
    let mut scanner = Scanner::from_start(&no_delimiter);
    assert_eq!(scanner.next().unwrap_err().kind, BarseErrorKind::MissingDelimiter);

    let late_terminator = padded("A;123456\n");
    let mut scanner = Scanner::from_start(&late_terminator);
    assert_eq!(scanner.next().unwrap_err().kind, BarseErrorKind::MissingTerminator);

    let empty_key = padded(";1.0\n");
    let mut scanner = Scanner::from_start(&empty_key);
    assert_eq!(scanner.next().unwrap_err().kind, BarseErrorKind::MalformedRecord);

    let bad_value = padded("A;1x0\n");
    let mut scanner = Scanner::from_start(&bad_value);
    assert_eq!(scanner.next().unwrap_err().kind, BarseErrorKind::MalformedRecord);

    match build_temperature_reading_table_from_bytes(&padded("A;1x0\n")) {
        Ok(_) => panic!("malformed input must not build"),
        Err(e) => assert_eq!(e.kind, BarseErrorKind::MalformedRecord),
    }
}

#[test]
fn full_table_is_fatal() {
    let mut table = WeatherStationTable::new(1);
    table.add_reading(b"A", TemperatureReading::new(10)).unwrap();
    table.add_reading(b"A", TemperatureReading::new(20)).unwrap();
    let err = table.add_reading(b"B", TemperatureReading::new(30)).unwrap_err();
    assert_eq!(err.kind, BarseErrorKind::TableFull);

    let mut other = WeatherStationTable::new(4);
    other.add_reading(b"C", TemperatureReading::new(1)).unwrap();
    match table.merge(&other) {
        Ok(()) => panic!("a full table must refuse new keys"),
        Err(e) => assert_eq!(e.kind, BarseErrorKind::TableFull),
    }
}

#[test]
fn slicer_covers_the_buffer_with_overlapping_chunks() {
    let mut small = Slicer::new(100);
    assert_eq!(small.next_slice(), Some((0, 100)));
    assert_eq!(small.next_slice(), None);

    let len = 2 * CHUNK_SIZE + 100;
    let mut plan = Slicer::new(len);
    assert_eq!(plan.next_slice(), Some((0, CHUNK_SIZE + 64)));
    assert_eq!(plan.next_slice(), Some((CHUNK_SIZE, 2 * CHUNK_SIZE + 64)));
    assert_eq!(plan.next_slice(), Some((2 * CHUNK_SIZE, len)));
    assert_eq!(plan.next_slice(), None);
}

#[test]
fn exhaustion_ends_the_scan_quietly() {
    // A trailing record cut off mid-value is discarded, not an error: the
    // shard protocol relies on the quiet stop.
    let truncated_value = padded("A;1.0\nBerlin;12");
    let mut scanner = Scanner::from_start(&truncated_value);
    let (ks, ke, v) = scanner.next().unwrap().unwrap();
    assert_eq!(&truncated_value[ks..ke], b"A");
    assert_eq!(v.reading(), 10);
    assert_eq!(scanner.next().unwrap(), None);

    // Cut off inside the key, before the buffer could hold a delimiter.
    let truncated_key = padded("A;1.0\nBerl");
    let mut scanner = Scanner::from_start(&truncated_key);
    let (_, _, v) = scanner.next().unwrap().unwrap();
    assert_eq!(v.reading(), 10);
    assert_eq!(scanner.next().unwrap(), None);

    // No terminator anywhere after the delimiter.
    let no_terminator = padded("A;1.0");
    let mut scanner = Scanner::from_start(&no_terminator);
    assert_eq!(scanner.next().unwrap(), None);

    let table = build_temperature_reading_table_from_bytes(&padded("A;1.0\nBerlin;12")).unwrap();
    assert_eq!(String::from_utf8(render_report(&table)).unwrap(), "{A=1.0/1.0/1.0}");
}

#[test]
fn record_straddling_a_shard_end_is_owned_by_the_next_shard() {
    // 13-byte records; the first shard's extended slice ends at byte 128,
    // inside a record, which it discards quietly; the second shard starts
    // after the last terminator of its overlap and owns that record.
    let mut input = String::new();
    for i in 0..12 {
        input.push_str(&format!("station{i};{}.{}\n", i % 10, i % 10));
    }
    let buf = {
        let mut b = input.as_bytes().to_vec();
        while b.len() % 16 != 0 || b.len() < 256 {
            b.push(0);
        }
        b
    };
    let whole = {
        let table = build_temperature_reading_table_from_bytes(&buf).unwrap();
        String::from_utf8(render_report(&table)).unwrap()
    };

    let boundary = 64;
    let mut t1 = build_shard_table(&buf[..boundary + 64], true).unwrap();
    let t2 = build_shard_table(&buf[boundary..], false).unwrap();
    t1.merge(&t2).unwrap();
    assert_eq!(String::from_utf8(render_report(&t1)).unwrap(), whole);
}

#[test]
fn padding_alone_yields_nothing() {
    let buf = vec![0u8; 64];
    let table = build_temperature_reading_table_from_bytes(&buf).unwrap();
    assert_eq!(String::from_utf8(render_report(&table)).unwrap(), "{}");

    let empty: Vec<u8> = Vec::new();
    let table = build_temperature_reading_table_from_bytes(&empty).unwrap();
    assert_eq!(String::from_utf8(render_report(&table)).unwrap(), "{}");
}

use barse::reading::{
    decode_value, decode_with_table, int_val_to_str_encoding, parse_table_idx, ParseTable,
    TemperatureReading,
};

fn int_val_to_str(val: i16) -> String {
    let sign = if val < 0 { "-" } else { "" };
    let tens = val.abs() / 10;
    let ones = val.abs() % 10;
    format!("{sign}{tens}.{ones}")
}

#[test]
fn test_int_val_to_str_encoding() {
    for val in -999..=999 {
        let encoding = int_val_to_str_encoding(val);
        let bytes = encoding.to_le_bytes();
        let mut first_zero = bytes.len();
        for (i, b) in bytes.iter().enumerate() {
            if *b == 0 {
                first_zero = i;
                break;
            }
        }
        let as_str = std::str::from_utf8(&bytes[..first_zero]).unwrap();

        let temp_reading: TemperatureReading = decode_value(as_str.as_bytes()).unwrap();
        assert_eq!(temp_reading.reading(), val);
    }
}

#[test]
fn test_parse_table() {
    let table = ParseTable::build().unwrap();
    for val in -999..=999 {
        let table_idx = parse_table_idx(int_val_to_str_encoding(val));
        assert!(table_idx < 8192);
        assert_eq!(table.lookup(int_val_to_str_encoding(val)), Some(val));
    }
}

#[test]
fn test_parse() {
    let table = ParseTable::build().unwrap();
    for val in -999..=999 {
        let s = format!("{}\nab\n", int_val_to_str(val));
        let to_parse = s.strip_suffix("\nab\n").unwrap();
        println!("Parsing {to_parse}");
        assert_eq!(
            decode_with_table(&table, to_parse.as_bytes()).unwrap(),
            decode_value(to_parse.as_bytes()).unwrap(),
            "Parsing {to_parse}"
        );
    }
}

#[test]
fn test_decode_boundary_values() {
    assert_eq!(decode_value(b"-99.9").unwrap().reading(), -999);
    assert_eq!(decode_value(b"99.9").unwrap().reading(), 999);
    assert_eq!(decode_value(b"0.0").unwrap().reading(), 0);
    assert_eq!(decode_value(b"-0.0").unwrap().reading(), 0);
    assert_eq!(decode_value(b"02.3").unwrap().reading(), 23);
}

#[test]
fn test_decode_rejects_malformed_tokens() {
    assert!(decode_value(b"").is_none());
    assert!(decode_value(b"1").is_none());
    assert!(decode_value(b"1.").is_none());
    assert!(decode_value(b"1.a").is_none());
    assert!(decode_value(b"a.1").is_none());
    assert!(decode_value(b"12.34").is_none());
    assert!(decode_value(b"123.4").is_none());
    assert!(decode_value(b"1..2").is_none());
    assert!(decode_value(b"-").is_none());
    assert!(decode_value(b"--1.0").is_none());
    assert!(decode_value(b"1,0").is_none());
}

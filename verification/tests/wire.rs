use nonsteam::decimal::{decimal, parse_decimal};
use nonsteam::text::{bytes_eq, find_nul};
use nonsteam::wire::{
    kind_from_marker, marker_of, read_entry, skip_body, write_entry, Entry, Kind,
};

#[test]
fn decimal_of_small_and_large_numbers() {
    assert_eq!(decimal(0), b"0");
    assert_eq!(decimal(7), b"7");
    assert_eq!(decimal(10), b"10");
    assert_eq!(decimal(123), b"123");
    assert_eq!(decimal(9_007_199_254_740_993), b"9007199254740993");
    assert_eq!(decimal(usize::MAX), usize::MAX.to_string().as_bytes());
}

#[test]
fn parse_decimal_reads_what_decimal_writes() {
    for n in [0usize, 1, 9, 10, 99, 100, 65_535, usize::MAX] {
        assert_eq!(parse_decimal(&decimal(n)), Some(n));
    }
}

#[test]
fn parse_decimal_rejects_what_is_no_number() {
    assert_eq!(parse_decimal(b""), None);
    assert_eq!(parse_decimal(b"12a"), None);
    assert_eq!(parse_decimal(b"-1"), None);
    assert_eq!(parse_decimal(b" 1"), None);
    assert_eq!(parse_decimal(b"007"), Some(7));
}

#[test]
fn parse_decimal_rejects_what_does_not_fit() {
    let mut too_big = usize::MAX.to_string().into_bytes();
    too_big.push(b'0');
    assert_eq!(parse_decimal(&too_big), None);
    assert_eq!(parse_decimal(b"99999999999999999999999999"), None);
}

#[test]
fn find_nul_gives_the_first_terminator() {
    assert_eq!(find_nul(b"ab\0cd\0", 0), 2);
    assert_eq!(find_nul(b"ab\0cd\0", 2), 2);
    assert_eq!(find_nul(b"ab\0cd\0", 3), 5);
    assert_eq!(find_nul(b"abc", 0), 3);
    assert_eq!(find_nul(b"abc", 3), 3);
    assert_eq!(find_nul(b"abc", 9), 3);
}

#[test]
fn bytes_eq_compares_all_bytes() {
    assert!(bytes_eq(b"", b""));
    assert!(bytes_eq(b"Chess", b"Chess"));
    assert!(!bytes_eq(b"Chess", b"chess"));
    assert!(!bytes_eq(b"Chess", b"Ches"));
}

#[test]
fn markers_and_kinds() {
    assert_eq!(marker_of(Kind::Container), 0);
    assert_eq!(marker_of(Kind::Text), 1);
    assert_eq!(marker_of(Kind::Int), 2);
    assert_eq!(kind_from_marker(0), Some(Kind::Container));
    assert_eq!(kind_from_marker(1), Some(Kind::Text));
    assert_eq!(kind_from_marker(2), Some(Kind::Int));
    assert_eq!(kind_from_marker(3), None);
    assert_eq!(kind_from_marker(8), None);
}

#[test]
fn skip_body_walks_over_nested_containers() {
    let body = b"\x01a\0b\0\0c\0\x02d\0\x01\0\0\0\0e\0\x08\x08\x08rest";
    assert_eq!(skip_body(body, 0), Ok(body.len() - 4));
    assert_eq!(skip_body(b"\x08", 0), Ok(1));
}

#[test]
fn skip_body_reports_the_first_unreadable_token() {
    assert_eq!(skip_body(b"", 0), Err(0));
    assert_eq!(skip_body(b"\x01a\0b\0", 0), Err(5));
    assert_eq!(skip_body(b"\0c\0\x08", 0), Err(4));
    assert_eq!(skip_body(b"\x01a\0b\0\x05", 0), Err(5));
    assert_eq!(skip_body(b"\x02a\0\x01\x02", 0), Err(3));
}

#[test]
fn read_entry_reads_each_kind() {
    assert_eq!(
        read_entry(b"\x01key\0value\0more", 0),
        Ok((Entry { key: b"key".to_vec(), kind: Kind::Text, raw: b"value".to_vec() }, 11))
    );
    assert_eq!(
        read_entry(b"..\x02n\0\x01\x02\x03\x04", 2),
        Ok((Entry { key: b"n".to_vec(), kind: Kind::Int, raw: vec![1, 2, 3, 4] }, 9))
    );
    assert_eq!(
        read_entry(b"\0c\0\x01a\0b\0\x08\x08", 0),
        Ok((Entry { key: b"c".to_vec(), kind: Kind::Container, raw: b"\x01a\0b\0\x08".to_vec() }, 9))
    );
}

#[test]
fn read_entry_reports_the_first_unreadable_token() {
    assert_eq!(read_entry(b"", 0), Err(0));
    assert_eq!(read_entry(b"\x08", 0), Err(0));
    assert_eq!(read_entry(b"\x01key", 0), Err(1));
    assert_eq!(read_entry(b"\x01key\0value", 0), Err(5));
    assert_eq!(read_entry(b"\x02key\0\x01", 0), Err(5));
    assert_eq!(read_entry(b"\0key\0\x01a\0b\0", 0), Err(10));
}

#[test]
fn write_entry_appends_the_bytes_of_each_kind() {
    let mut out = b">".to_vec();
    write_entry(&mut out, Kind::Text, b"key", b"value");
    write_entry(&mut out, Kind::Int, b"n", &[1, 2, 3, 4]);
    write_entry(&mut out, Kind::Container, b"c", b"\x08");
    assert_eq!(out, b">\x01key\0value\0\x02n\0\x01\x02\x03\x04\0c\0\x08".to_vec());
}

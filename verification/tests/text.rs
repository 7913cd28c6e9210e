use uksmd::text::{parse_number, push_number, push_text, scan, starts_with, ByteClass};

#[test]
fn parse_number_reads_hexadecimal() {
    assert_eq!(parse_number("7f00".as_bytes(), 16), Some(0x7f00));
    assert_eq!(parse_number("0".as_bytes(), 16), Some(0));
    assert_eq!(parse_number("ffffffffffffffff".as_bytes(), 16), Some(u64::MAX));
}

#[test]
fn parse_number_reads_decimal() {
    assert_eq!(parse_number("132".as_bytes(), 10), Some(132));
    assert_eq!(parse_number("18446744073709551615".as_bytes(), 10), Some(u64::MAX));
    assert_eq!(parse_number("007".as_bytes(), 10), Some(7));
}

#[test]
fn parse_number_rejects_what_does_not_fit() {
    assert_eq!(parse_number("10000000000000000".as_bytes(), 16), None);
    assert_eq!(parse_number("18446744073709551616".as_bytes(), 10), None);
}

#[test]
fn parse_number_rejects_what_is_no_number() {
    assert_eq!(parse_number("".as_bytes(), 16), None);
    assert_eq!(parse_number("7F".as_bytes(), 16), None);
    assert_eq!(parse_number("a".as_bytes(), 10), None);
    assert_eq!(parse_number("-1".as_bytes(), 10), None);
    assert_eq!(parse_number("1 ".as_bytes(), 10), None);
}

#[test]
fn push_number_writes_digits() {
    let mut out = Vec::new();
    push_number(&mut out, 0, 10);
    push_text(&mut out, " ");
    push_number(&mut out, 4096, 16);
    push_text(&mut out, " ");
    push_number(&mut out, 541, 10);
    push_text(&mut out, " ");
    push_number(&mut out, u64::MAX, 16);
    assert_eq!(out, "0 1000 541 ffffffffffffffff".as_bytes().to_vec());
}

#[test]
fn written_numbers_read_back() {
    for n in [0u64, 1, 9, 10, 15, 16, 255, 4096, 0x7fff_dead_beef, u64::MAX] {
        for radix in [2u64, 10, 16] {
            let mut out = Vec::new();
            push_number(&mut out, n, radix);
            assert_eq!(parse_number(&out, radix), Some(n));
        }
    }
}

#[test]
fn scan_stops_at_the_first_byte_outside_the_class() {
    let line = "7f00-8000 rw-p".as_bytes();
    assert_eq!(scan(line, 0, ByteClass::Hex), 4);
    assert_eq!(scan(line, 4, ByteClass::Hex), 4);
    assert_eq!(scan(line, 5, ByteClass::Hex), 9);
    assert_eq!(scan(line, 9, ByteClass::Space), 10);
    assert_eq!(scan(line, 10, ByteClass::Word), 14);
    assert_eq!(scan(line, 14, ByteClass::Word), 14);
    assert_eq!(scan("a\tb\nc".as_bytes(), 0, ByteClass::Line), 3);
}

#[test]
fn starts_with_compares_the_front() {
    assert!(starts_with("Anonymous:   4 kB".as_bytes(), "Anonymous:"));
    assert!(!starts_with("Anonymous".as_bytes(), "Anonymous:"));
    assert!(!starts_with("anonymous: 4 kB".as_bytes(), "Anonymous:"));
    assert!(starts_with("x".as_bytes(), ""));
}

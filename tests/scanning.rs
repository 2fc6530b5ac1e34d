use station_stats::error::AggError;
use station_stats::scan::{eat, process_chunk};
use station_stats::value::parse_int;

#[test]
fn parses() {
    assert_eq!(parse_int(b"99.9"), Ok(999));
    assert_eq!(parse_int(b"-99.9"), Ok(-999));
    assert_eq!(parse_int(b"0"), Ok(0));
    assert_eq!(parse_int(b"9"), Ok(90));
    assert_eq!(parse_int(b"-9"), Ok(-90));
    assert_eq!(parse_int(b"15"), Ok(150));
    assert_eq!(parse_int(b"-15"), Ok(-150));
    assert_eq!(parse_int(b"15.3"), Ok(153));
    assert_eq!(parse_int(b"-15.3"), Ok(-153));
    assert_eq!(parse_int(b"0.3"), Ok(3));
    assert_eq!(parse_int(b"-0.3"), Ok(-3));
    assert_eq!(parse_int(b"-1.3"), Ok(-13));
}

#[test]
fn eats() {
    assert_eq!(eat(b"5;", 0, b';'), b"5");
    assert_eq!(
        eat(b"foo_1234567890_bar_1234567890_baz_1234567890;out", 0, b';'),
        b"foo_1234567890_bar_1234567890_baz_1234567890"
    );
}

#[test]
fn eat_from_offset_and_without_target() {
    assert_eq!(eat(b"ab;cd;ef", 3, b';'), b"cd");
    assert_eq!(eat(b"abc", 1, b';'), b"bc");
    assert_eq!(eat(b"abc", 3, b';'), b"");
}

#[test]
fn parses_longer_integer_parts() {
    assert_eq!(parse_int(b"123.4"), Ok(1234));
    assert_eq!(parse_int(b"-007"), Ok(-70));
    assert_eq!(parse_int(b"214748364.7"), Ok(2147483647));
}

#[test]
fn rejects_malformed_values() {
    for bad in [
        &b""[..],
        b"-",
        b"abc",
        b"1.",
        b".5",
        b"-.5",
        b"1.23",
        b"1.x",
        b"+1",
        b"1 ",
        b"214748364.8",
        b"99999999999999999999",
    ] {
        assert_eq!(parse_int(bad), Err(AggError::MalformedValue), "{:?}", bad);
    }
}

#[test]
fn chunk_aggregates_records() {
    let t = process_chunk(b"A;1.0\nB;2.0\nA;-3.5\n").unwrap();
    assert_eq!(t.records(), 3);
    let a = t.get(b"A").unwrap();
    assert_eq!((a.min, a.max, a.total, a.count), (-35, 10, -25, 2));
    let b = t.get(b"B").unwrap();
    assert_eq!((b.min, b.max, b.total, b.count), (20, 20, 20, 1));
    assert!(t.get(b"C").is_none());
}

#[test]
fn chunk_accepts_last_record_without_terminator() {
    let t = process_chunk(b"A;1.0\nA;2.5").unwrap();
    let a = t.get(b"A").unwrap();
    assert_eq!((a.min, a.max, a.total, a.count), (10, 25, 35, 2));
}

#[test]
fn empty_chunk_is_empty_table() {
    let t = process_chunk(b"").unwrap();
    assert_eq!(t.records(), 0);
    assert!(t.report().is_empty());
}

#[test]
fn chunk_errors() {
    assert_eq!(process_chunk(b"A;1.0\nB\n").err(), Some(AggError::TruncatedRecord));
    assert_eq!(process_chunk(b"A;1.0\n\nB;1.0\n").err(), Some(AggError::TruncatedRecord));
    assert_eq!(process_chunk(b"A;abc\n").err(), Some(AggError::MalformedValue));
    assert_eq!(process_chunk(b"A;1.0\nB;\n").err(), Some(AggError::MalformedValue));
}

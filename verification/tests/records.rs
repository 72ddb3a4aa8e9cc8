use lcovclient::decimal::push_decimal;
use lcovclient::path::{join_path, resolve_path, resolve_records, starts_at_root};
use lcovclient::record::{
    decode_line, is_line_data_marker, judge_line, parse_records, serialize_records, write_record,
    CoverageRecord, LineOutcome, ParsedLine, RecordError,
};

fn boundary(path: &str) -> CoverageRecord {
    CoverageRecord::SourceFileBoundary { path: path.as_bytes().to_vec() }
}

fn hit(line: u32, hit_count: u64) -> CoverageRecord {
    CoverageRecord::LineHit { line, hit_count }
}

fn decimal_of(n: u64) -> Vec<u8> {
    let mut out = Vec::new();
    push_decimal(&mut out, n);
    out
}

#[test]
fn decimal_text() {
    assert_eq!(decimal_of(0), b"0".to_vec());
    assert_eq!(decimal_of(7), b"7".to_vec());
    assert_eq!(decimal_of(10), b"10".to_vec());
    assert_eq!(decimal_of(1203), b"1203".to_vec());
    assert_eq!(decimal_of(u32::MAX as u64), b"4294967295".to_vec());
    assert_eq!(decimal_of(u64::MAX), b"18446744073709551615".to_vec());
    let mut out = b"n=".to_vec();
    push_decimal(&mut out, 42);
    assert_eq!(out, b"n=42".to_vec());
}

#[test]
fn parses_the_three_line_forms() {
    let records = parse_records(b"SF:a.c\nDA:1,1\nDA:2,0\nend_of_record\n").unwrap();
    assert_eq!(records, vec![boundary("a.c"), hit(1, 1), hit(2, 0), CoverageRecord::EndOfRecord]);
}

#[test]
fn empty_buffer_has_no_records() {
    assert_eq!(parse_records(b"").unwrap(), Vec::<CoverageRecord>::new());
    assert_eq!(parse_records(b"\n\n").unwrap(), Vec::<CoverageRecord>::new());
}

#[test]
fn unrecognized_lines_are_ignored() {
    let text = b"TN:suite\nSF:/src/x.rs\nFN:3,main\nFNDA:1,main\nFNF:1\nFNH:1\nDA:3,7\n\
BRDA:3,0,0,1\nBRF:1\nBRH:1\nLF:1\nLH:1\nFOO:1,2\nnonsense\n\nLF:abc\nFNDA:3\nend_of_record\n";
    let records = parse_records(text).unwrap();
    assert_eq!(records, vec![boundary("/src/x.rs"), hit(3, 7), CoverageRecord::EndOfRecord]);
}

#[test]
fn line_breaks_of_both_kinds() {
    let records = parse_records(b"SF:a.c\r\nDA:5,2\r\nend_of_record").unwrap();
    assert_eq!(records, vec![boundary("a.c"), hit(5, 2), CoverageRecord::EndOfRecord]);
    let last = parse_records(b"DA:9,1").unwrap();
    assert_eq!(last, vec![hit(9, 1)]);
}

#[test]
fn source_path_keeps_colons_and_commas() {
    let records = parse_records(b"SF:C:/dir/a,b.c\nSF:\n").unwrap();
    assert_eq!(records, vec![boundary("C:/dir/a,b.c"), boundary("")]);
}

#[test]
fn line_data_with_checksum() {
    let records = parse_records(b"DA:12,3,abcdef\n").unwrap();
    assert_eq!(records, vec![hit(12, 3)]);
}

#[test]
fn line_data_extremes() {
    let records = parse_records(b"DA:0,0\nDA:4294967295,18446744073709551615\n").unwrap();
    assert_eq!(records, vec![hit(0, 0), hit(u32::MAX, u64::MAX)]);
}

#[test]
fn malformed_line_data_fails_the_buffer() {
    assert_eq!(
        parse_records(b"DA:x,1\n").unwrap_err(),
        RecordError::MalformedRecord { line_number: 1 }
    );
    assert_eq!(
        parse_records(b"SF:a.c\nDA:1,1\nDA:2,many\nDA:bad,0\n").unwrap_err(),
        RecordError::MalformedRecord { line_number: 3 }
    );
    assert_eq!(
        parse_records(b"SF:a.c\n\nDA:1\n").unwrap_err(),
        RecordError::MalformedRecord { line_number: 3 }
    );
    assert_eq!(parse_records(b"DA:\n").unwrap_err(), RecordError::MalformedRecord { line_number: 1 });
    assert_eq!(
        parse_records(b"DA:4294967296,1\n").unwrap_err(),
        RecordError::MalformedRecord { line_number: 1 }
    );
    assert_eq!(
        parse_records(b"DA:-1,1\n").unwrap_err(),
        RecordError::MalformedRecord { line_number: 1 }
    );
}

#[test]
fn bytes_that_are_not_text() {
    assert_eq!(parse_records(b"\xff\xfe\nDA:1,1\n").unwrap(), vec![hit(1, 1)]);
    assert_eq!(parse_records(b"SF:\xff\nDA:1,1\n").unwrap(), vec![hit(1, 1)]);
    assert_eq!(
        parse_records(b"DA:1,\xff\n").unwrap_err(),
        RecordError::MalformedRecord { line_number: 1 }
    );
}

#[test]
fn marker_is_the_prefix() {
    assert!(is_line_data_marker(b"DA:"));
    assert!(is_line_data_marker(b"DA:1,2"));
    assert!(!is_line_data_marker(b"DA"));
    assert!(!is_line_data_marker(b"BRDA:1"));
    assert!(!is_line_data_marker(b""));
    assert!(!is_line_data_marker(b"da:1,2"));
}

#[test]
fn judging_a_line() {
    assert_eq!(
        judge_line(b"SF:x", Some(ParsedLine::SourceFile { path: b"x".to_vec() })),
        LineOutcome::Record(boundary("x"))
    );
    assert_eq!(
        judge_line(b"DA:4,2", Some(ParsedLine::LineData { line: 4, count: 2 })),
        LineOutcome::Record(hit(4, 2))
    );
    assert_eq!(
        judge_line(b"end_of_record", Some(ParsedLine::EndOfRecord)),
        LineOutcome::Record(CoverageRecord::EndOfRecord)
    );
    assert_eq!(judge_line(b"LF:3", Some(ParsedLine::Other)), LineOutcome::Ignored);
    assert_eq!(judge_line(b"LF:x", Some(ParsedLine::Rejected)), LineOutcome::Ignored);
    assert_eq!(judge_line(b"\xff", None), LineOutcome::Ignored);
    assert_eq!(judge_line(b"DA:x", Some(ParsedLine::Rejected)), LineOutcome::Malformed);
    assert_eq!(judge_line(b"DA:\xff", None), LineOutcome::Malformed);
}

#[test]
fn decoding_single_lines() {
    assert_eq!(decode_line(b"SF:/a/b.c"), LineOutcome::Record(boundary("/a/b.c")));
    assert_eq!(decode_line(b"DA:10,0"), LineOutcome::Record(hit(10, 0)));
    assert_eq!(decode_line(b"end_of_record"), LineOutcome::Record(CoverageRecord::EndOfRecord));
    assert_eq!(decode_line(b""), LineOutcome::Ignored);
    assert_eq!(decode_line(b"TN:x"), LineOutcome::Ignored);
    assert_eq!(decode_line(b"DA:1;2"), LineOutcome::Malformed);
}

#[test]
fn writes_one_line_per_record() {
    let records = vec![boundary("/p/a.c"), hit(1, 1), hit(2, 0), CoverageRecord::EndOfRecord];
    assert_eq!(
        serialize_records(&records),
        b"SF:/p/a.c\nDA:1,1\nDA:2,0\nend_of_record\n".to_vec()
    );
    assert!(serialize_records(&Vec::new()).is_empty());
    let mut out = b"x".to_vec();
    write_record(&mut out, &hit(4294967295, 18446744073709551615));
    assert_eq!(out, b"xDA:4294967295,18446744073709551615\n".to_vec());
}

#[test]
fn written_records_parse_back() {
    let records = vec![
        boundary("/root/project/src/main.c"),
        hit(1, 0),
        hit(2, 15),
        hit(77, 1),
        CoverageRecord::EndOfRecord,
        boundary("relative/\u{e9}t\u{e9}.c"),
        hit(4294967295, 18446744073709551615),
        boundary(""),
        CoverageRecord::EndOfRecord,
        CoverageRecord::EndOfRecord,
    ];
    let text = serialize_records(&records);
    assert_eq!(parse_records(&text).unwrap(), records);
    assert_eq!(serialize_records(&parse_records(&text).unwrap()), text);
}

#[test]
fn joining_paths() {
    assert_eq!(join_path(b"/proj", b"a.c"), b"/proj/a.c".to_vec());
    assert_eq!(join_path(b"/proj/", b"a.c"), b"/proj/a.c".to_vec());
    assert_eq!(join_path(b"/proj", b"/abs/a.c"), b"/abs/a.c".to_vec());
    assert_eq!(join_path(b"", b"a.c"), b"a.c".to_vec());
    assert_eq!(join_path(b"/proj", b""), b"/proj/".to_vec());
    assert_eq!(join_path(b"/", b"a.c"), b"/a.c".to_vec());
    assert_eq!(join_path(b"/proj", b"../x/./a.c"), b"/proj/../x/./a.c".to_vec());
    assert!(starts_at_root(b"/a"));
    assert!(!starts_at_root(b"a/"));
    assert!(!starts_at_root(b""));
}

#[test]
fn resolved_path_falls_back_to_the_joined_path() {
    assert_eq!(resolve_path(b"/proj", b"a.c", None), b"/proj/a.c".to_vec());
    assert_eq!(
        resolve_path(b"/proj", b"link/a.c", Some(b"/real/a.c".to_vec())),
        b"/real/a.c".to_vec()
    );
}

#[test]
fn resolving_a_resolved_path_changes_nothing() {
    let once = resolve_path(b"/proj", b"src/a.c", None);
    assert_eq!(resolve_path(b"/proj", &once, None), once);
    assert_eq!(resolve_path(b"/proj", &once, Some(once.clone())), once);
    let real = resolve_path(b"/proj", b"src/a.c", Some(b"/real/a.c".to_vec()));
    assert_eq!(resolve_path(b"/proj", &real, None), real);
}

#[test]
fn records_are_resolved_one_by_one() {
    let records = vec![
        boundary("a.c"),
        hit(1, 1),
        boundary("b.c"),
        CoverageRecord::EndOfRecord,
        boundary("/abs/c.c"),
        boundary("late.c"),
    ];
    let lookups = vec![Some(b"/real/a.c".to_vec()), Some(b"/unused".to_vec()), None, None, None];
    let resolved = resolve_records(&records, b"/proj", &lookups);
    assert_eq!(
        resolved,
        vec![
            boundary("/real/a.c"),
            hit(1, 1),
            boundary("/proj/b.c"),
            CoverageRecord::EndOfRecord,
            boundary("/abs/c.c"),
            boundary("/proj/late.c"),
        ]
    );
}

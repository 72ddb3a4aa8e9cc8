use lcovclient::bitmap::{make_key, same_bytes, CoverageBitmap, MAP_SIZE};
use lcovclient::session::collect_coverage;
use lcovclient::LcovCoverageClient;

#[test]
fn key_is_path_colon_line() {
    assert_eq!(make_key(b"/p/a.c", 12), b"/p/a.c:12".to_vec());
    assert_eq!(make_key(b"", 0), b":0".to_vec());
    assert_eq!(make_key(b"a:1", 2), b"a:1:2".to_vec());
}

#[test]
fn comparing_bytes() {
    assert!(same_bytes(b"", b""));
    assert!(same_bytes(b"abc", b"abc"));
    assert!(!same_bytes(b"abc", b"abd"));
    assert!(!same_bytes(b"abc", b"ab"));
    assert!(!same_bytes(b"", b"a"));
}

#[test]
fn new_bitmaps_are_empty() {
    let bitmap = CoverageBitmap::new();
    assert_eq!(bitmap.key_count(), 0);
    assert_eq!(bitmap.dropped(), 0);
    assert_eq!(bitmap.slot(b"a.c:1"), None);
    assert!(!bitmap.cycle_bit(0));
    assert!(!bitmap.total_bit(0));
    assert!(!bitmap.cycle_bit(MAP_SIZE - 1));
    assert!(!bitmap.total_bit(MAP_SIZE - 1));
    assert_eq!(MAP_SIZE, 65536);
}

#[test]
fn slots_follow_first_observation() {
    let mut bitmap = CoverageBitmap::new();
    assert_eq!(bitmap.observe(b"a.c:1", true), Some(0));
    assert_eq!(bitmap.observe(b"a.c:2", false), Some(1));
    assert_eq!(bitmap.observe(b"b.c:1", true), Some(2));
    assert_eq!(bitmap.observe(b"a.c:2", true), Some(1));
    assert_eq!(bitmap.observe(b"a.c:1", false), Some(0));
    assert_eq!(bitmap.observe(b"c.c:9", false), Some(3));
    assert_eq!(bitmap.key_count(), 4);
    assert_eq!(bitmap.slot(b"a.c:1"), Some(0));
    assert_eq!(bitmap.slot(b"a.c:2"), Some(1));
    assert_eq!(bitmap.slot(b"b.c:1"), Some(2));
    assert_eq!(bitmap.slot(b"c.c:9"), Some(3));
    assert_eq!(bitmap.slot(b"c.c:8"), None);
}

#[test]
fn cycle_is_overwritten_and_total_is_a_union() {
    let mut bitmap = CoverageBitmap::new();
    bitmap.observe(b"k", true);
    assert!(bitmap.cycle_bit(0));
    assert!(bitmap.total_bit(0));
    bitmap.observe(b"k", false);
    assert!(!bitmap.cycle_bit(0));
    assert!(bitmap.total_bit(0));
    bitmap.observe(b"never", false);
    assert!(!bitmap.cycle_bit(1));
    assert!(!bitmap.total_bit(1));
    bitmap.observe(b"never", true);
    assert!(bitmap.cycle_bit(1));
    assert!(bitmap.total_bit(1));
}

#[test]
fn total_survives_a_later_cycle_without_a_hit() {
    let mut bitmap = CoverageBitmap::new();
    let slot = bitmap.observe(b"/p/a.c:3", true).unwrap();
    bitmap.observe(b"/p/a.c:4", true);
    bitmap.clear_cycle();
    assert!(!bitmap.cycle_bit(slot));
    assert!(bitmap.total_bit(slot));
    assert!(bitmap.total_bit(1));
    assert_eq!(bitmap.observe(b"/p/a.c:3", false), Some(slot));
    assert!(!bitmap.cycle_bit(slot));
    assert!(bitmap.total_bit(slot));
    assert_eq!(bitmap.key_count(), 2);
}

#[test]
fn observations_beyond_capacity_are_counted() {
    let mut bitmap = CoverageBitmap::new();
    for n in 0..MAP_SIZE {
        let key = [(n >> 8) as u8, (n & 0xFF) as u8];
        assert_eq!(bitmap.observe(&key, n % 2 == 0), Some(n));
    }
    assert_eq!(bitmap.key_count(), MAP_SIZE);
    assert_eq!(bitmap.dropped(), 0);
    assert!(bitmap.total_bit(MAP_SIZE - 2));
    assert!(!bitmap.total_bit(MAP_SIZE - 1));
    assert_eq!(bitmap.observe(b"one too many", true), None);
    assert_eq!(bitmap.observe(b"one too many", true), None);
    assert_eq!(bitmap.observe(b"another", false), None);
    assert_eq!(bitmap.dropped(), 3);
    assert_eq!(bitmap.key_count(), MAP_SIZE);
    assert_eq!(bitmap.slot(b"one too many"), None);
    assert_eq!(bitmap.observe(&[0xFF, 0xFF], true), Some(MAP_SIZE - 1));
    assert!(bitmap.total_bit(MAP_SIZE - 1));
    assert_eq!(bitmap.dropped(), 3);
}

#[test]
fn set_cov_bit_observes_a_line() {
    let mut client = LcovCoverageClient::new(None);
    client.set_cov_bit("a.c", 1, 1);
    client.set_cov_bit("a.c", 2, 0);
    client.set_cov_bit("a.c", 3, 200);
    client.set_cov_bit("a.c", 1, 0);
    let bitmap = client.bitmap();
    assert_eq!(bitmap.slot(b"a.c:1"), Some(0));
    assert_eq!(bitmap.slot(b"a.c:2"), Some(1));
    assert_eq!(bitmap.slot(b"a.c:3"), Some(2));
    assert!(!bitmap.cycle_bit(0));
    assert!(bitmap.total_bit(0));
    assert!(!bitmap.cycle_bit(1));
    assert!(!bitmap.total_bit(1));
    assert!(bitmap.cycle_bit(2));
    assert!(bitmap.total_bit(2));
}

#[test]
fn new_client_keeps_its_output_path() {
    let client = LcovCoverageClient::new(Some(String::from("out/coverage.lcov")));
    assert_eq!(client.output_path().as_deref(), Some("out/coverage.lcov"));
    assert_eq!(client.bitmap().key_count(), 0);
    let plain = LcovCoverageClient::new(None);
    assert!(plain.output_path().is_none());
}

#[test]
fn one_block_of_coverage_end_to_end() {
    let payload = b"SF:a.c\nDA:1,1\nDA:2,0\nend_of_record\n";
    let mut stream = vec![0x02];
    stream.extend_from_slice(&(payload.len() as u32).to_be_bytes());
    stream.extend_from_slice(payload);
    stream.extend_from_slice(&[0xFF, 0, 0, 0, 0]);
    let buffer = collect_coverage(&stream);
    assert_eq!(buffer, payload.to_vec());

    let mut client = LcovCoverageClient::new(None);
    let lookups = vec![None, None, None, None];
    let written = client.process_coverage(&buffer, b"/proj", &lookups).unwrap();
    assert_eq!(written, b"SF:/proj/a.c\nDA:1,1\nDA:2,0\nend_of_record\n".to_vec());
    let bitmap = client.bitmap();
    assert_eq!(bitmap.key_count(), 2);
    assert_eq!(bitmap.slot(b"/proj/a.c:1"), Some(0));
    assert_eq!(bitmap.slot(b"/proj/a.c:2"), Some(1));
    assert!(bitmap.cycle_bit(0));
    assert!(bitmap.total_bit(0));
    assert!(!bitmap.cycle_bit(1));
    assert!(!bitmap.total_bit(1));
}

#[test]
fn process_uses_the_canonical_paths() {
    let mut client = LcovCoverageClient::new(None);
    let text = b"SF:src/../a.c\nDA:7,3\nend_of_record\nDA:8,1\nSF:b.c\nDA:1,0\n";
    let lookups = vec![Some(b"/proj/a.c".to_vec())];
    let written = client.process_coverage(text, b"/proj", &lookups).unwrap();
    assert_eq!(
        written,
        b"SF:/proj/a.c\nDA:7,3\nend_of_record\nDA:8,1\nSF:/proj/b.c\nDA:1,0\n".to_vec()
    );
    let bitmap = client.bitmap();
    assert_eq!(bitmap.slot(b"/proj/a.c:7"), Some(0));
    assert_eq!(bitmap.slot(b":8"), Some(1));
    assert_eq!(bitmap.slot(b"/proj/b.c:1"), Some(2));
    assert!(bitmap.total_bit(0));
    assert!(bitmap.total_bit(1));
    assert!(!bitmap.total_bit(2));
}

#[test]
fn malformed_buffer_leaves_the_client_alone() {
    let mut client = LcovCoverageClient::new(None);
    client.set_cov_bit("/proj/a.c", 1, 1);
    let result = client.process_coverage(b"SF:a.c\nDA:2,1\nDA:oops\n", b"/proj", &Vec::new());
    assert_eq!(
        result.unwrap_err(),
        lcovclient::record::RecordError::MalformedRecord { line_number: 3 }
    );
    assert_eq!(client.bitmap().key_count(), 1);
    assert_eq!(client.bitmap().slot(b"/proj/a.c:2"), None);
}

#[test]
fn slots_hold_across_cycles() {
    let mut client = LcovCoverageClient::new(None);
    let first = b"SF:a.c\nDA:1,1\nDA:2,1\nend_of_record\n";
    let second = b"SF:b.c\nDA:1,1\nend_of_record\nSF:a.c\nDA:2,0\nDA:1,0\nend_of_record\n";
    client.process_coverage(first, b"/p", &Vec::new()).unwrap();
    client.clear_cycle();
    client.process_coverage(second, b"/p", &Vec::new()).unwrap();
    let bitmap = client.bitmap();
    assert_eq!(bitmap.slot(b"/p/a.c:1"), Some(0));
    assert_eq!(bitmap.slot(b"/p/a.c:2"), Some(1));
    assert_eq!(bitmap.slot(b"/p/b.c:1"), Some(2));
    assert!(!bitmap.cycle_bit(0));
    assert!(!bitmap.cycle_bit(1));
    assert!(bitmap.cycle_bit(2));
    assert!(bitmap.total_bit(0));
    assert!(bitmap.total_bit(1));
    assert!(bitmap.total_bit(2));
}

use lcovclient::frame::{decode_length, read_block, BlockType, FrameError};
use lcovclient::session::{
    collect_coverage, reset_command, reset_outcome, FetchPhase, FetchSession, ResetOutcome,
    RESET_ACK_LEN,
};

fn block(tag: u8, payload: &[u8]) -> Vec<u8> {
    let mut out = vec![tag];
    out.extend_from_slice(&(payload.len() as u32).to_be_bytes());
    out.extend_from_slice(payload);
    out
}

#[test]
fn tags_map_to_block_types() {
    assert_eq!(BlockType::from_tag(0x01), BlockType::Header);
    assert_eq!(BlockType::from_tag(0x02), BlockType::CoverageData);
    assert_eq!(BlockType::from_tag(0x03), BlockType::CommandOk);
    assert_eq!(BlockType::from_tag(0x04), BlockType::SessionInfo);
    assert_eq!(BlockType::from_tag(0xFF), BlockType::EndOfTransmission);
    assert_eq!(BlockType::from_tag(0x00), BlockType::Unknown);
    assert_eq!(BlockType::from_tag(0x05), BlockType::Unknown);
    assert_eq!(BlockType::from_tag(0xFE), BlockType::Unknown);
}

#[test]
fn length_is_big_endian() {
    assert_eq!(decode_length(0, 0, 0, 0), 0);
    assert_eq!(decode_length(0, 0, 0, 5), 5);
    assert_eq!(decode_length(0, 0, 1, 0), 256);
    assert_eq!(decode_length(0x12, 0x34, 0x56, 0x78), 0x1234_5678);
    assert_eq!(decode_length(0xFF, 0xFF, 0xFF, 0xFF), u32::MAX);
}

#[test]
fn read_block_gives_a_whole_block() {
    let mut stream = block(0x02, b"hello");
    stream.extend_from_slice(&block(0xFF, b""));
    let (first, next) = read_block(&stream, 0).unwrap();
    assert_eq!(first.tag, 0x02);
    assert_eq!(first.payload, b"hello".to_vec());
    assert_eq!(first.kind(), BlockType::CoverageData);
    assert_eq!(next, 10);
    let (second, end) = read_block(&stream, next).unwrap();
    assert_eq!(second.tag, 0xFF);
    assert!(second.payload.is_empty());
    assert_eq!(second.kind(), BlockType::EndOfTransmission);
    assert_eq!(end, 15);
}

#[test]
fn read_block_short_header() {
    assert_eq!(read_block(&[], 0).unwrap_err(), FrameError::ShortRead);
    assert_eq!(read_block(&[0x02, 0, 0, 0], 0).unwrap_err(), FrameError::ShortRead);
    let stream = block(0x02, b"ab");
    assert_eq!(read_block(&stream, stream.len()).unwrap_err(), FrameError::ShortRead);
}

#[test]
fn read_block_short_payload() {
    let stream = vec![0x02, 0, 0, 0, 4, b'a', b'b', b'c'];
    assert_eq!(read_block(&stream, 0).unwrap_err(), FrameError::ShortRead);
    let huge = vec![0x02, 0xFF, 0xFF, 0xFF, 0xFF, 1, 2, 3];
    assert_eq!(read_block(&huge, 0).unwrap_err(), FrameError::ShortRead);
}

#[test]
fn reset_command_is_reset_and_line_feed() {
    assert_eq!(reset_command(), b"RESET\n".to_vec());
    assert_eq!(RESET_ACK_LEN, 3);
}

#[test]
fn reset_completes_without_acknowledgment() {
    assert_eq!(reset_outcome(0), ResetOutcome::Unacknowledged);
    assert_eq!(reset_outcome(2), ResetOutcome::Unacknowledged);
    assert_eq!(reset_outcome(3), ResetOutcome::Acknowledged);
    let mut client = lcovclient::LcovCoverageClient::new(None);
    assert!(client.fetch_coverage_internal(true, &[]).is_empty());
    assert!(client.fetch_coverage_internal(true, b"OK\n").is_empty());
    let data = block(0x02, b"DA:1,1\n");
    assert!(client.fetch_coverage_internal(true, &data).is_empty());
}

#[test]
fn coverage_payloads_are_joined_in_order() {
    let mut stream = Vec::new();
    stream.extend_from_slice(&block(0x01, b"hdr"));
    stream.extend_from_slice(&block(0x02, b"SF:a.c\n"));
    stream.extend_from_slice(&block(0x03, b"ok"));
    stream.extend_from_slice(&block(0x04, b"session"));
    stream.extend_from_slice(&block(0x02, b"DA:1,1\n"));
    stream.extend_from_slice(&block(0x7A, b"what"));
    stream.extend_from_slice(&block(0x02, b""));
    stream.extend_from_slice(&block(0x02, b"end_of_record\n"));
    stream.extend_from_slice(&block(0xFF, b""));
    assert_eq!(collect_coverage(&stream), b"SF:a.c\nDA:1,1\nend_of_record\n".to_vec());
}

#[test]
fn nothing_is_read_after_end_of_transmission() {
    let mut stream = block(0x02, b"one");
    stream.extend_from_slice(&block(0xFF, b"bye"));
    stream.extend_from_slice(&block(0x02, b"two"));
    assert_eq!(collect_coverage(&stream), b"one".to_vec());
}

#[test]
fn truncated_stream_gives_what_was_complete() {
    let mut stream = block(0x02, b"first");
    stream.extend_from_slice(&block(0x02, b"second"));
    let whole = stream.len();
    stream.extend_from_slice(&block(0x02, b"third"));
    for cut in whole..stream.len() {
        assert_eq!(collect_coverage(&stream[..cut]), b"firstsecond".to_vec());
    }
    assert_eq!(collect_coverage(&stream), b"firstsecondthird".to_vec());
    assert!(collect_coverage(&[]).is_empty());
    assert!(collect_coverage(&[0x02]).is_empty());
}

#[test]
fn fetch_goes_through_the_client() {
    let mut client = lcovclient::LcovCoverageClient::new(None);
    let mut stream = block(0x02, b"SF:a.c\nDA:1,1\nDA:2,0\nend_of_record\n");
    stream.extend_from_slice(&block(0xFF, b""));
    assert_eq!(
        client.fetch_coverage_internal(false, &stream),
        b"SF:a.c\nDA:1,1\nDA:2,0\nend_of_record\n".to_vec()
    );
}

#[test]
fn session_steps_through_header_and_payload() {
    let mut session = FetchSession::new();
    assert_eq!(session.phase, FetchPhase::AwaitHeader);
    assert_eq!(session.wanted(), 5);
    assert!(!session.is_finished());
    session.accept(&[0x02, 0, 0, 0, 3]);
    assert_eq!(session.phase, FetchPhase::AwaitPayload { tag: 0x02, length: 3 });
    assert_eq!(session.wanted(), 3);
    session.accept(b"abc");
    assert_eq!(session.phase, FetchPhase::AwaitHeader);
    assert_eq!(session.buffer, b"abc".to_vec());
    session.accept(&[0x01, 0, 0, 0, 2]);
    session.accept(b"zz");
    assert_eq!(session.buffer, b"abc".to_vec());
    session.accept(&[0xFF, 0, 0, 0, 0]);
    assert_eq!(session.wanted(), 0);
    assert!(!session.is_finished());
    session.accept(&[]);
    assert!(session.is_finished());
    assert_eq!(session.wanted(), 0);
    assert_eq!(session.into_buffer(), b"abc".to_vec());
}

#[test]
fn session_short_read_keeps_the_buffer() {
    let mut session = FetchSession::new();
    session.accept(&[0x02, 0, 0, 0, 2]);
    session.accept(b"xy");
    session.accept(&[0x02, 0, 0, 0, 9]);
    session.short_read();
    assert!(session.is_finished());
    assert_eq!(session.into_buffer(), b"xy".to_vec());
}

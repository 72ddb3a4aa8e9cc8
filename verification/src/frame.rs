//! Length-prefixed typed blocks: a one byte tag, a big-endian 32 bit length
//! and exactly that many payload bytes.

use vstd::prelude::*;
use vstd::slice::*;

verus! {

/// Number of bytes in a block header.
pub const HEADER_LEN: usize = 5;

pub const TAG_HEADER: u8 = 0x01;

pub const TAG_COVERAGE_DATA: u8 = 0x02;

pub const TAG_COMMAND_OK: u8 = 0x03;

pub const TAG_SESSION_INFO: u8 = 0x04;

pub const TAG_END_OF_TRANSMISSION: u8 = 0xFF;

/// What a block's tag byte announces.
#[derive(Clone, Copy, Debug, PartialEq, Eq, Structural)]
pub enum BlockType {
    Header,
    CoverageData,
    CommandOk,
    SessionInfo,
    EndOfTransmission,
    Unknown,
}

/// Reading a block failed because the stream ended before the header or the
/// declared payload was complete.
#[derive(Clone, Copy, Debug, PartialEq, Eq, Structural)]
pub enum FrameError {
    ShortRead,
}

/// One block as it travelled: the tag byte and the payload. The declared length
/// is the payload's length.
#[derive(Debug)]
pub struct Block {
    pub tag: u8,
    pub payload: Vec<u8>,
}

/// The mathematical content of a block.
pub struct Frame {
    pub tag: u8,
    pub payload: Seq<u8>,
}

/// The block type that a tag byte stands for.
pub open spec fn block_type_of(tag: u8) -> BlockType {
    if tag == 0x01 {
        BlockType::Header
    } else if tag == 0x02 {
        BlockType::CoverageData
    } else if tag == 0x03 {
        BlockType::CommandOk
    } else if tag == 0x04 {
        BlockType::SessionInfo
    } else if tag == 0xFF {
        BlockType::EndOfTransmission
    } else {
        BlockType::Unknown
    }
}

/// The number that four bytes spell in big-endian order.
pub open spec fn be_value(b0: u8, b1: u8, b2: u8, b3: u8) -> int {
    b0 as int * 16777216 + b1 as int * 65536 + b2 as int * 256 + b3 as int
}

/// The four big-endian bytes of a number below 2^32.
pub open spec fn be_bytes(n: int) -> Seq<u8> {
    seq![
        (n / 16777216) as u8,
        ((n / 65536) % 256) as u8,
        ((n / 256) % 256) as u8,
        (n % 256) as u8,
    ]
}

/// The bytes of one block on the wire.
pub open spec fn encode_frame(f: Frame) -> Seq<u8> {
    seq![f.tag] + be_bytes(f.payload.len() as int) + f.payload
}

/// A frame can be put on the wire when its length fits the length field.
pub open spec fn frame_fits(f: Frame) -> bool {
    f.payload.len() <= 0xFFFF_FFFF
}

/// The payload length that the header at the front of `s` declares.
pub open spec fn declared_len(s: Seq<u8>) -> int
    recommends
        s.len() >= 5,
{
    be_value(s[1], s[2], s[3], s[4])
}

/// The block at the front of `s`, if `s` holds a whole one.
pub open spec fn first_frame(s: Seq<u8>) -> Option<Frame> {
    if s.len() < 5 {
        None
    } else if s.len() - 5 < declared_len(s) {
        None
    } else {
        Some(Frame { tag: s[0], payload: s.subrange(5, 5 + declared_len(s)) })
    }
}

/// The number of bytes that a frame takes on the wire.
pub open spec fn frame_size(f: Frame) -> int {
    5 + f.payload.len() as int
}

impl View for Block {
    type V = Frame;

    open spec fn view(&self) -> Frame {
        Frame { tag: self.tag, payload: self.payload@ }
    }
}

impl BlockType {
    /// Classifies a tag byte.
    pub fn from_tag(tag: u8) -> (kind: BlockType)
        ensures
            kind == block_type_of(tag),
    {
        if tag == TAG_HEADER {
            BlockType::Header
        } else if tag == TAG_COVERAGE_DATA {
            BlockType::CoverageData
        } else if tag == TAG_COMMAND_OK {
            BlockType::CommandOk
        } else if tag == TAG_SESSION_INFO {
            BlockType::SessionInfo
        } else if tag == TAG_END_OF_TRANSMISSION {
            BlockType::EndOfTransmission
        } else {
            BlockType::Unknown
        }
    }
}

impl Block {
    /// The type announced by this block's tag.
    pub fn kind(&self) -> (kind: BlockType)
        ensures
            kind == block_type_of(self.tag),
    {
        BlockType::from_tag(self.tag)
    }
}

/// Decodes the length field of a header.
pub fn decode_length(b0: u8, b1: u8, b2: u8, b3: u8) -> (n: u32)
    ensures
        n == be_value(b0, b1, b2, b3),
{
    let hi: u32 = b0 as u32 * 16777216;
    let mid: u32 = b1 as u32 * 65536;
    let lo: u32 = b2 as u32 * 256;
    hi + mid + lo + b3 as u32
}

/// Encoding a length and reading it back gives the length.
pub proof fn lemma_be_round_trip(n: int)
    requires
        0 <= n <= 0xFFFF_FFFF,
    ensures
        be_bytes(n).len() == 4,
        be_value(be_bytes(n)[0], be_bytes(n)[1], be_bytes(n)[2], be_bytes(n)[3]) == n,
{
    let b = be_bytes(n);
    assert(b[0] as int == n / 16777216);
    assert(b[1] as int == (n / 65536) % 256);
    assert(b[2] as int == (n / 256) % 256);
    assert(b[3] as int == n % 256);
}

/// The block at the front of an encoded frame followed by anything is that
/// frame.
pub proof fn lemma_first_frame_of_encoded(f: Frame, rest: Seq<u8>)
    requires
        frame_fits(f),
    ensures
        first_frame(encode_frame(f) + rest) == Some(f),
        (encode_frame(f) + rest).skip(frame_size(f)) == rest,
        encode_frame(f).len() == frame_size(f),
{
    let s = encode_frame(f) + rest;
    let n = f.payload.len() as int;
    lemma_be_round_trip(n);
    let b = be_bytes(n);
    assert(s[0] == f.tag);
    assert(s[1] == b[0]);
    assert(s[2] == b[1]);
    assert(s[3] == b[2]);
    assert(s[4] == b[3]);
    assert(declared_len(s) == n);
    assert(s.subrange(5, 5 + n) =~= f.payload);
    assert(s.skip(5 + n) =~= rest);
}

/// Reads the block that starts at offset `at` of `stream`. Either a whole
/// block is produced, with the offset of the byte after it, or the read is
/// short.
pub fn read_block(stream: &[u8], at: usize) -> (r: Result<(Block, usize), FrameError>)
    requires
        at <= stream@.len(),
    ensures
        match first_frame(stream@.skip(at as int)) {
            Some(f) => r is Ok && r->Ok_0.0@ == f && r->Ok_0.1 == at + frame_size(f) && frame_fits(
                f,
            ),
            None => r == Err::<(Block, usize), FrameError>(FrameError::ShortRead),
        },
{
    let ghost s = stream@.skip(at as int);
    let remaining: usize = stream.len() - at;
    if remaining < HEADER_LEN {
        return Err(FrameError::ShortRead);
    }
    let tag: u8 = stream[at];
    let length: u32 = decode_length(stream[at + 1], stream[at + 2], stream[at + 3], stream[at + 4]);
    assert(length == declared_len(s));
    if ((remaining - HEADER_LEN) as u64) < (length as u64) {
        return Err(FrameError::ShortRead);
    }
    let start: usize = at + HEADER_LEN;
    let end: usize = start + length as usize;
    let payload = slice_to_vec(slice_subrange(stream, start, end));
    assert(payload@ =~= s.subrange(5, 5 + declared_len(s)));
    Ok((Block { tag, payload }, end))
}

} // verus!

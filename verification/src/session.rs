//! The two exchanges with the agent: the reset handshake and the fetch loop
//! that gathers the coverage payloads of a block stream.

use vstd::prelude::*;
use vstd::slice::*;
use crate::frame::{
    be_bytes, block_type_of, declared_len, encode_frame, first_frame, frame_fits, frame_size,
    be_value, decode_length, lemma_be_round_trip, lemma_first_frame_of_encoded, BlockType, Frame,
    HEADER_LEN,
};

verus! {

/// Number of acknowledgment bytes that the agent sends after a reset.
pub const RESET_ACK_LEN: usize = 3;

/// The bytes of the reset command: the ASCII text `RESET` and a line feed.
pub open spec fn reset_command_bytes() -> Seq<u8> {
    seq![0x52u8, 0x45u8, 0x53u8, 0x45u8, 0x54u8, 0x0Au8]
}

/// The command that asks the agent to clear its counters.
pub fn reset_command() -> (cmd: Vec<u8>)
    ensures
        cmd@ == reset_command_bytes(),
{
    let mut cmd: Vec<u8> = Vec::new();
    cmd.push(0x52u8);
    cmd.push(0x45u8);
    cmd.push(0x53u8);
    cmd.push(0x45u8);
    cmd.push(0x54u8);
    cmd.push(0x0Au8);
    assert(cmd@ =~= reset_command_bytes());
    cmd
}

/// What a reset exchange amounts to, given how many acknowledgment bytes arrived.
#[derive(Clone, Copy, Debug, PartialEq, Eq, Structural)]
pub enum ResetOutcome {
    Acknowledged,
    Unacknowledged,
}

/// Judges a reset exchange. The reset is complete either way; a missing or
/// short acknowledgment is only reported.
pub fn reset_outcome(ack_bytes_read: usize) -> (outcome: ResetOutcome)
    ensures
        outcome == if ack_bytes_read >= RESET_ACK_LEN {
            ResetOutcome::Acknowledged
        } else {
            ResetOutcome::Unacknowledged
        },
{
    if ack_bytes_read >= RESET_ACK_LEN {
        ResetOutcome::Acknowledged
    } else {
        ResetOutcome::Unacknowledged
    }
}

/// What one block adds to the accumulated buffer.
pub open spec fn contribution(f: Frame) -> Seq<u8> {
    if block_type_of(f.tag) == BlockType::CoverageData {
        f.payload
    } else {
        Seq::<u8>::empty()
    }
}

/// The buffer that a fetch accumulates from the bytes of a stream: the
/// coverage payloads, in order, of the whole blocks up to the first end of
/// transmission or the first incomplete block.
pub open spec fn collected(s: Seq<u8>) -> Seq<u8>
    decreases s.len(),
{
    match first_frame(s) {
        None => Seq::<u8>::empty(),
        Some(f) => if block_type_of(f.tag) == BlockType::EndOfTransmission {
            Seq::<u8>::empty()
        } else {
            contribution(f) + collected(s.skip(frame_size(f)))
        },
    }
}

/// The coverage payloads of a sequence of blocks, joined in order.
pub open spec fn coverage_payloads(blocks: Seq<Frame>) -> Seq<u8>
    decreases blocks.len(),
{
    if blocks.len() == 0 {
        Seq::<u8>::empty()
    } else {
        contribution(blocks[0]) + coverage_payloads(blocks.skip(1))
    }
}

/// The bytes of a sequence of blocks on the wire.
pub open spec fn encode_frames(blocks: Seq<Frame>) -> Seq<u8>
    decreases blocks.len(),
{
    if blocks.len() == 0 {
        Seq::<u8>::empty()
    } else {
        encode_frame(blocks[0]) + encode_frames(blocks.skip(1))
    }
}

/// Every block fits the length field and none ends the transmission.
pub open spec fn open_blocks(blocks: Seq<Frame>) -> bool {
    forall|i: int|
        0 <= i < blocks.len() ==> frame_fits(#[trigger] blocks[i]) && block_type_of(blocks[i].tag)
            != BlockType::EndOfTransmission
}

/// `tail` is the start of a block that the stream does not finish.
pub open spec fn cut_short(tail: Seq<u8>) -> bool {
    first_frame(tail) is None
}

/// Blocks that do not end the transmission, followed by any bytes: the fetch
/// gathers the blocks' coverage payloads and goes on with what follows.
pub proof fn lemma_collected_prefix(blocks: Seq<Frame>, tail: Seq<u8>)
    requires
        open_blocks(blocks),
    ensures
        collected(encode_frames(blocks) + tail) == coverage_payloads(blocks) + collected(tail),
    decreases blocks.len(),
{
    if blocks.len() == 0 {
        assert(encode_frames(blocks) + tail =~= tail);
        assert(coverage_payloads(blocks) + collected(tail) =~= collected(tail));
    } else {
        let f = blocks[0];
        let rest = blocks.skip(1);
        let after = encode_frames(rest) + tail;
        assert(open_blocks(rest)) by {
            assert forall|i: int| 0 <= i < rest.len() implies frame_fits(#[trigger] rest[i])
                && block_type_of(rest[i].tag) != BlockType::EndOfTransmission by {
                assert(rest[i] == blocks[i + 1]);
            }
        }
        lemma_collected_prefix(rest, tail);
        lemma_first_frame_of_encoded(f, after);
        assert(encode_frames(blocks) + tail =~= encode_frame(f) + after);
        assert(coverage_payloads(blocks) + collected(tail) =~= contribution(f) + (
        coverage_payloads(rest) + collected(tail)));
    }
}

/// For every sequence of blocks that ends the transmission only with the block
/// `last`, the fetch gathers exactly the coverage payloads of the blocks before
/// it, in arrival order, whatever follows on the stream.
pub proof fn lemma_collected_until_end(blocks: Seq<Frame>, last: Frame, trailing: Seq<u8>)
    requires
        open_blocks(blocks),
        frame_fits(last),
        block_type_of(last.tag) == BlockType::EndOfTransmission,
    ensures
        collected(encode_frames(blocks) + encode_frame(last) + trailing) == coverage_payloads(
            blocks,
        ),
{
    let tail = encode_frame(last) + trailing;
    lemma_collected_prefix(blocks, tail);
    lemma_first_frame_of_encoded(last, trailing);
    assert(collected(tail) =~= Seq::<u8>::empty());
    assert(encode_frames(blocks) + encode_frame(last) + trailing =~= encode_frames(blocks) + tail);
    assert(coverage_payloads(blocks) + collected(tail) =~= coverage_payloads(blocks));
}

/// For every stream that breaks off inside a block, the fetch gathers the
/// coverage payloads of the whole blocks before the break.
pub proof fn lemma_collected_truncated(blocks: Seq<Frame>, partial: Seq<u8>)
    requires
        open_blocks(blocks),
        cut_short(partial),
    ensures
        collected(encode_frames(blocks) + partial) == coverage_payloads(blocks),
{
    lemma_collected_prefix(blocks, partial);
    assert(collected(partial) =~= Seq::<u8>::empty());
    assert(coverage_payloads(blocks) + collected(partial) =~= coverage_payloads(blocks));
}

/// Every proper prefix of an encoded block is the start of an unfinished block.
pub proof fn lemma_prefix_is_cut_short(f: Frame, n: int)
    requires
        frame_fits(f),
        0 <= n < frame_size(f),
    ensures
        cut_short(encode_frame(f).take(n)),
{
    let whole = encode_frame(f);
    let part = whole.take(n);
    lemma_first_frame_of_encoded(f, Seq::<u8>::empty());
    assert(whole + Seq::<u8>::empty() =~= whole);
    if n >= 5 {
        assert(part[1] == whole[1]);
        assert(part[2] == whole[2]);
        assert(part[3] == whole[3]);
        assert(part[4] == whole[4]);
        assert(declared_len(part) == declared_len(whole));
        lemma_be_round_trip(f.payload.len() as int);
        let b = be_bytes(f.payload.len() as int);
        assert(whole[1] == b[0]);
        assert(whole[2] == b[1]);
        assert(whole[3] == b[2]);
        assert(whole[4] == b[3]);
    }
}

/// For every stream that breaks off inside a block, at any byte of it, the
/// fetch gathers the coverage payloads of the whole blocks before the break
/// and does not fail.
pub proof fn lemma_collected_cut_mid_block(blocks: Seq<Frame>, broken: Frame, n: int)
    requires
        open_blocks(blocks),
        frame_fits(broken),
        0 <= n < frame_size(broken),
    ensures
        collected(encode_frames(blocks) + encode_frame(broken).take(n)) == coverage_payloads(
            blocks,
        ),
{
    lemma_prefix_is_cut_short(broken, n);
    lemma_collected_truncated(blocks, encode_frame(broken).take(n));
}

/// Where a fetch stands between two reads.
#[derive(Clone, Copy, Debug, PartialEq, Eq, Structural)]
pub enum FetchPhase {
    /// The next read is a block header.
    AwaitHeader,
    /// A header announced `length` payload bytes under `tag`; the next read is
    /// that payload.
    AwaitPayload { tag: u8, length: u32 },
    /// The transmission ended or a read came up short.
    Finished,
}

/// The decisions of a fetch, apart from the reads themselves: the caller reads
/// the number of bytes that `wanted` names and hands them to `accept`, or
/// reports with `short_read` that they did not arrive.
#[derive(Debug)]
pub struct FetchSession {
    pub phase: FetchPhase,
    pub buffer: Vec<u8>,
}

/// The number of bytes that a fetch in `phase` reads next.
pub open spec fn spec_wanted(phase: FetchPhase) -> int {
    match phase {
        FetchPhase::AwaitHeader => 5,
        FetchPhase::AwaitPayload { tag, length } => length as int,
        FetchPhase::Finished => 0,
    }
}

/// The phase after the bytes `data` arrived in `phase`.
pub open spec fn next_phase(phase: FetchPhase, data: Seq<u8>) -> FetchPhase {
    match phase {
        FetchPhase::AwaitHeader => FetchPhase::AwaitPayload {
            tag: data[0],
            length: be_value(data[1], data[2], data[3], data[4]) as u32,
        },
        FetchPhase::AwaitPayload { tag, length } => if block_type_of(tag)
            == BlockType::EndOfTransmission {
            FetchPhase::Finished
        } else {
            FetchPhase::AwaitHeader
        },
        FetchPhase::Finished => FetchPhase::Finished,
    }
}

/// What the bytes `data`, arriving in `phase`, add to the buffer.
pub open spec fn accepted_bytes(phase: FetchPhase, data: Seq<u8>) -> Seq<u8> {
    match phase {
        FetchPhase::AwaitPayload { tag, length } => contribution(Frame { tag, payload: data }),
        _ => Seq::<u8>::empty(),
    }
}

impl FetchSession {
    /// A fetch that has read nothing yet.
    pub fn new() -> (session: FetchSession)
        ensures
            session.phase == FetchPhase::AwaitHeader,
            session.buffer@ == Seq::<u8>::empty(),
    {
        FetchSession { phase: FetchPhase::AwaitHeader, buffer: Vec::new() }
    }

    /// The number of bytes to read next; nothing once the fetch is finished.
    pub fn wanted(&self) -> (n: usize)
        ensures
            n == spec_wanted(self.phase),
    {
        match self.phase {
            FetchPhase::AwaitHeader => HEADER_LEN,
            FetchPhase::AwaitPayload { tag, length } => length as usize,
            FetchPhase::Finished => 0,
        }
    }

    /// Whether the fetch has come to its end.
    pub fn is_finished(&self) -> (done: bool)
        ensures
            done == (self.phase == FetchPhase::Finished),
    {
        match self.phase {
            FetchPhase::Finished => true,
            _ => false,
        }
    }

    /// Takes the bytes of a complete read: a header fixes the payload to
    /// read, a payload is kept if its block carries coverage data, and an end
    /// of transmission block finishes the fetch.
    pub fn accept(&mut self, data: &[u8])
        requires
            data@.len() == spec_wanted(old(self).phase),
        ensures
            final(self).phase == next_phase(old(self).phase, data@),
            final(self).buffer@ == old(self).buffer@ + accepted_bytes(old(self).phase, data@),
    {
        match self.phase {
            FetchPhase::AwaitHeader => {
                let length: u32 = decode_length(data[1], data[2], data[3], data[4]);
                self.phase = FetchPhase::AwaitPayload { tag: data[0], length };
                assert(self.buffer@ =~= old(self).buffer@ + Seq::<u8>::empty());
            },
            FetchPhase::AwaitPayload { tag, length } => {
                match BlockType::from_tag(tag) {
                    BlockType::CoverageData => {
                        self.buffer.extend_from_slice(data);
                        assert(self.buffer@ =~= old(self).buffer@ + data@);
                        self.phase = FetchPhase::AwaitHeader;
                    },
                    BlockType::EndOfTransmission => {
                        self.phase = FetchPhase::Finished;
                        assert(self.buffer@ =~= old(self).buffer@ + Seq::<u8>::empty());
                    },
                    _ => {
                        self.phase = FetchPhase::AwaitHeader;
                        assert(self.buffer@ =~= old(self).buffer@ + Seq::<u8>::empty());
                    },
                }
            },
            FetchPhase::Finished => {
                assert(self.buffer@ =~= old(self).buffer@ + Seq::<u8>::empty());
            },
        }
    }

    /// Records that the awaited bytes did not arrive: the fetch is over and
    /// keeps what it has gathered.
    pub fn short_read(&mut self)
        ensures
            final(self).phase == FetchPhase::Finished,
            final(self).buffer@ == old(self).buffer@,
    {
        self.phase = FetchPhase::Finished;
    }

    /// Gives up the gathered bytes.
    pub fn into_buffer(self) -> (buffer: Vec<u8>)
        ensures
            buffer@ == self.buffer@,
    {
        self.buffer
    }
}

/// Runs a fetch over the bytes that a connection delivered before it closed or
/// timed out, and returns the accumulated coverage data. There is no failure:
/// a stream that breaks off gives what was complete before the break.
pub fn collect_coverage(stream: &[u8]) -> (buffer: Vec<u8>)
    ensures
        buffer@ == collected(stream@),
{
    let mut session = FetchSession::new();
    let mut at: usize = 0;
    assert(stream@.skip(0) =~= stream@);
    assert(session.buffer@ + collected(stream@) =~= collected(stream@));
    while !session.is_finished()
        invariant
            at <= stream@.len(),
            match session.phase {
                FetchPhase::AwaitHeader => session.buffer@ + collected(stream@.skip(at as int))
                    == collected(stream@),
                FetchPhase::AwaitPayload { tag, length } => {
                    &&& at >= 5
                    &&& tag == stream@[at - 5]
                    &&& length == declared_len(stream@.skip(at - 5))
                    &&& session.buffer@ + collected(stream@.skip(at - 5)) == collected(stream@)
                },
                FetchPhase::Finished => session.buffer@ == collected(stream@),
            },
        decreases
            stream@.len() - at,
            (if session.phase is AwaitPayload { 1int } else { 0int }),
            (if session.phase is Finished { 0int } else { 1int }),
    {
        let n: usize = session.wanted();
        let ghost before = session.phase;
        let ghost gathered = session.buffer@;
        let ghost here = stream@.skip(if before is AwaitPayload { at - 5 } else { at as int });
        if stream.len() - at < n {
            session.short_read();
            assert(first_frame(here) is None);
            assert(collected(here) =~= Seq::<u8>::empty());
            assert(session.buffer@ + collected(here) =~= session.buffer@);
        } else {
            let data = slice_subrange(stream, at, at + n);
            session.accept(data);
            at = at + n;
            proof {
                match before {
                    FetchPhase::AwaitHeader => {
                        assert(session.buffer@ =~= gathered) by {
                            assert(accepted_bytes(before, data@) =~= Seq::<u8>::empty());
                        }
                    },
                    FetchPhase::AwaitPayload { tag, length } => {
                        let f = first_frame(here)->Some_0;
                        assert(first_frame(here) is Some);
                        assert(f.tag == tag);
                        assert(f.payload =~= data@);
                        assert(here.skip(frame_size(f)) =~= stream@.skip(at as int));
                    },
                    FetchPhase::Finished => {},
                }
            }
        }
    }
    session.into_buffer()
}

} // verus!

//! Coverage records: the text form that the agent sends, its decoding and the
//! writer that emits records again.

use vstd::prelude::*;
use vstd::slice::*;
use vstd::string::StringSliceAdditionalSpecFns;
use vstd::utf8::valid_utf8;
use crate::decimal::{decimal, push_decimal};

verus! {

/// One coverage record. A source file boundary sets the file that the line
/// hits after it belong to, until the next boundary or end of record.
#[derive(Clone, Debug, PartialEq, Eq)]
pub enum CoverageRecord {
    SourceFileBoundary { path: Vec<u8> },
    LineHit { line: u32, hit_count: u64 },
    EndOfRecord,
}

/// The mathematical content of a coverage record.
pub enum RecordModel {
    SourceFileBoundary { path: Seq<u8> },
    LineHit { line: u32, hit_count: u64 },
    EndOfRecord,
}

impl View for CoverageRecord {
    type V = RecordModel;

    open spec fn view(&self) -> RecordModel {
        match self {
            CoverageRecord::SourceFileBoundary { path } => RecordModel::SourceFileBoundary {
                path: path@,
            },
            CoverageRecord::LineHit { line, hit_count } => RecordModel::LineHit {
                line: *line,
                hit_count: *hit_count,
            },
            CoverageRecord::EndOfRecord => RecordModel::EndOfRecord,
        }
    }
}

/// The contents of a sequence of records.
pub open spec fn models(records: Seq<CoverageRecord>) -> Seq<RecordModel> {
    Seq::new(records.len(), |i: int| records[i]@)
}

/// Decoding a buffer failed.
#[derive(Clone, Copy, Debug, PartialEq, Eq, Structural)]
pub enum RecordError {
    /// The line with this number, counted from one, is a line data marker
    /// whose fields are not a line number and a hit count.
    MalformedRecord { line_number: usize },
}

pub const LINE_FEED: u8 = 0x0A;

pub const CARRIAGE_RETURN: u8 = 0x0D;

/// The text `SF:`.
pub open spec fn source_file_prefix() -> Seq<u8> {
    seq![0x53u8, 0x46u8, 0x3Au8]
}

/// The text `DA:`.
pub open spec fn line_data_prefix() -> Seq<u8> {
    seq![0x44u8, 0x41u8, 0x3Au8]
}

/// The text `end_of_record`.
pub open spec fn end_of_record_text() -> Seq<u8> {
    seq![
        0x65u8,
        0x6Eu8,
        0x64u8,
        0x5Fu8,
        0x6Fu8,
        0x66u8,
        0x5Fu8,
        0x72u8,
        0x65u8,
        0x63u8,
        0x6Fu8,
        0x72u8,
        0x64u8,
    ]
}

/// The line that names a source file.
pub open spec fn source_file_text(path: Seq<u8>) -> Seq<u8> {
    source_file_prefix() + path
}

/// The line that gives a line number and its hit count.
pub open spec fn line_data_text(line: u32, count: u64) -> Seq<u8> {
    line_data_prefix() + decimal(line as nat) + seq![0x2Cu8] + decimal(count as nat)
}

/// The line that stands for a record, without its line feed.
pub open spec fn record_text(r: RecordModel) -> Seq<u8> {
    match r {
        RecordModel::SourceFileBoundary { path } => source_file_text(path),
        RecordModel::LineHit { line, hit_count } => line_data_text(line, hit_count),
        RecordModel::EndOfRecord => end_of_record_text(),
    }
}

/// Whether `s` starts with `prefix`.
pub open spec fn has_prefix(s: Seq<u8>, prefix: Seq<u8>) -> bool {
    s.len() >= prefix.len() && s.take(prefix.len() as int) == prefix
}

/// Whether the last byte of `s` is a line feed or a carriage return.
pub open spec fn ends_in_line_break(s: Seq<u8>) -> bool {
    s.len() > 0 && (s.last() == 0x0Au8 || s.last() == 0x0Du8)
}

/// The number of bytes before the first line feed of `s`, or the length of `s`
/// if it holds none.
pub open spec fn line_end(s: Seq<u8>) -> nat
    decreases s.len(),
{
    if s.len() == 0 || s[0] == 0x0Au8 {
        0
    } else {
        1 + line_end(s.skip(1))
    }
}

/// A line without the carriage return that may end it.
pub open spec fn without_carriage_return(line: Seq<u8>) -> Seq<u8> {
    if line.len() > 0 && line.last() == 0x0Du8 {
        line.drop_last()
    } else {
        line
    }
}

/// The first line of a buffer that is not empty. A line feed ends it and is
/// not part of it, nor is a carriage return just before that line feed; the
/// last line of a buffer may go without a line feed and is then taken whole.
pub open spec fn first_line(s: Seq<u8>) -> Seq<u8> {
    let n = line_end(s);
    if n < s.len() {
        without_carriage_return(s.take(n as int))
    } else {
        s
    }
}

/// What follows the first line of a buffer.
pub open spec fn after_first_line(s: Seq<u8>) -> Seq<u8> {
    let n = line_end(s);
    if n < s.len() {
        s.skip(n as int + 1)
    } else {
        Seq::<u8>::empty()
    }
}

/// The lines of a buffer, in order. An empty buffer has none, and a line feed
/// at the very end starts no further line.
pub open spec fn lines(s: Seq<u8>) -> Seq<Seq<u8>>
    decreases s.len(),
{
    if s.len() == 0 {
        Seq::<Seq<u8>>::empty()
    } else {
        seq![first_line(s)] + lines(after_first_line(s))
    }
}

/// `line_end` is the position of the first line feed.
pub proof fn lemma_line_end(s: Seq<u8>, n: int)
    requires
        0 <= n <= s.len(),
        forall|k: int| 0 <= k < n ==> s[k] != 0x0Au8,
        n == s.len() || s[n] == 0x0Au8,
    ensures
        line_end(s) == n,
    decreases n,
{
    if n > 0 {
        let t = s.skip(1);
        assert forall|k: int| 0 <= k < n - 1 implies t[k] != 0x0Au8 by {
            assert(t[k] == s[k + 1]);
        }
        lemma_line_end(t, n - 1);
    }
}

/// What the record reader makes of one line of text.
#[derive(Debug, PartialEq, Eq)]
pub enum ParsedLine {
    SourceFile { path: Vec<u8> },
    LineData { line: u32, count: u64 },
    EndOfRecord,
    /// A record of a kind that carries no line coverage.
    Other,
    /// The reader refused the line.
    Rejected,
}

/// The mathematical content of a `ParsedLine`.
pub enum ParsedModel {
    SourceFile { path: Seq<u8> },
    LineData { line: u32, count: u64 },
    EndOfRecord,
    Other,
    Rejected,
}

impl View for ParsedLine {
    type V = ParsedModel;

    open spec fn view(&self) -> ParsedModel {
        match self {
            ParsedLine::SourceFile { path } => ParsedModel::SourceFile { path: path@ },
            ParsedLine::LineData { line, count } => ParsedModel::LineData {
                line: *line,
                count: *count,
            },
            ParsedLine::EndOfRecord => ParsedModel::EndOfRecord,
            ParsedLine::Other => ParsedModel::Other,
            ParsedLine::Rejected => ParsedModel::Rejected,
        }
    }
}

/// What `lcov`'s record parser makes of the UTF-8 text `text`.
pub uninterp spec fn lcov_record(text: Seq<u8>) -> ParsedModel;

/// Whether `text` is a line data line in the form that `line_data_text` gives.
pub open spec fn is_line_data_text(text: Seq<u8>) -> bool {
    exists|line: u32, count: u64| text == #[trigger] line_data_text(line, count)
}

/// The reading of a line of UTF-8 text as a record. The three forms that the
/// writer of this module emits are spelled out; every other line reads as
/// `otherwise`, which stands for what the record parser decides.
pub open spec fn record_reading(text: Seq<u8>, otherwise: ParsedModel) -> ParsedModel {
    if has_prefix(text, source_file_prefix()) && !ends_in_line_break(text) {
        ParsedModel::SourceFile { path: text.skip(3) }
    } else if text == end_of_record_text() {
        ParsedModel::EndOfRecord
    } else if is_line_data_text(text) {
        let fields = choose|fields: (u32, u64)| text == line_data_text(fields.0, fields.1);
        ParsedModel::LineData { line: fields.0, count: fields.1 }
    } else {
        otherwise
    }
}

/// Calls `str::from_utf8` of the standard library: the bytes are handed back
/// as text exactly when they are valid UTF-8, and the text then has those
/// bytes.
#[verifier::external_body]
fn as_text<'a>(bytes: &'a [u8]) -> (text: Option<&'a str>)
    ensures
        text is Some <==> valid_utf8(bytes@),
        text is Some ==> text->Some_0.spec_bytes() == bytes@,
{
    std::str::from_utf8(bytes).ok()
}

/// Calls `lcov`'s `FromStr` implementation for `lcov::Record`, which parses
/// one line. The parser drops line breaks at the end of the line and splits it
/// at the first colon into a record kind and a body. Claimed of it: a line that
/// starts with `SF:` and ends in no line break is a source file record whose
/// path is everything after the prefix; the line `end_of_record` is the end of
/// record; `DA:`, a line number in decimal, a comma and a count in decimal is a
/// line data record with those two numbers. Every other result is only given
/// a name.
#[verifier::external_body]
fn parse_record(text: &str) -> (parsed: ParsedLine)
    ensures
        parsed@ == record_reading(text.spec_bytes(), lcov_record(text.spec_bytes())),
{
    match text.parse::<lcov::Record>() {
        Ok(lcov::Record::SourceFile { path }) => ParsedLine::SourceFile {
            path: path.to_string_lossy().into_owned().into_bytes(),
        },
        Ok(lcov::Record::LineData { line, count, .. }) => ParsedLine::LineData { line, count },
        Ok(lcov::Record::EndOfRecord) => ParsedLine::EndOfRecord,
        Ok(_) => ParsedLine::Other,
        Err(_) => ParsedLine::Rejected,
    }
}

/// What becomes of one line of a buffer.
#[derive(Debug, PartialEq, Eq)]
pub enum LineOutcome {
    Record(CoverageRecord),
    Ignored,
    Malformed,
}

/// The mathematical content of a `LineOutcome`.
pub enum OutcomeModel {
    Record(RecordModel),
    Ignored,
    Malformed,
}

impl View for LineOutcome {
    type V = OutcomeModel;

    open spec fn view(&self) -> OutcomeModel {
        match self {
            LineOutcome::Record(r) => OutcomeModel::Record(r@),
            LineOutcome::Ignored => OutcomeModel::Ignored,
            LineOutcome::Malformed => OutcomeModel::Malformed,
        }
    }
}

/// The reading of a line of bytes: none if the line is not UTF-8 text.
pub open spec fn reading(line: Seq<u8>) -> Option<ParsedModel> {
    if valid_utf8(line) {
        Some(record_reading(line, lcov_record(line)))
    } else {
        None
    }
}

/// What becomes of `line`, given its reading: the three kinds of coverage
/// record are kept; of the lines that give none, a line data marker is
/// malformed and every other line is ignored.
pub open spec fn judged(line: Seq<u8>, parsed: Option<ParsedModel>) -> OutcomeModel {
    match parsed {
        Some(ParsedModel::SourceFile { path }) => OutcomeModel::Record(
            RecordModel::SourceFileBoundary { path },
        ),
        Some(ParsedModel::LineData { line, count }) => OutcomeModel::Record(
            RecordModel::LineHit { line, hit_count: count },
        ),
        Some(ParsedModel::EndOfRecord) => OutcomeModel::Record(RecordModel::EndOfRecord),
        _ => if has_prefix(line, line_data_prefix()) {
            OutcomeModel::Malformed
        } else {
            OutcomeModel::Ignored
        },
    }
}

/// What becomes of a line of a buffer.
pub open spec fn line_outcome(line: Seq<u8>) -> OutcomeModel {
    judged(line, reading(line))
}

/// The view of an optional reading.
pub open spec fn parsed_model(parsed: Option<ParsedLine>) -> Option<ParsedModel> {
    match parsed {
        Some(p) => Some(p@),
        None => None,
    }
}

/// Whether `line` starts with `DA:`.
pub fn is_line_data_marker(line: &[u8]) -> (marker: bool)
    ensures
        marker == has_prefix(line@, line_data_prefix()),
{
    if line.len() >= 3 {
        assert(line@.take(3) =~= seq![line@[0], line@[1], line@[2]]);
        line[0] == 0x44u8 && line[1] == 0x41u8 && line[2] == 0x3Au8
    } else {
        false
    }
}

/// Decides what becomes of `line`, given what the record reader made of it
/// (nothing, if the line is not text).
pub fn judge_line(line: &[u8], parsed: Option<ParsedLine>) -> (outcome: LineOutcome)
    ensures
        outcome@ == judged(line@, parsed_model(parsed)),
{
    match parsed {
        Some(ParsedLine::SourceFile { path }) => LineOutcome::Record(
            CoverageRecord::SourceFileBoundary { path },
        ),
        Some(ParsedLine::LineData { line, count }) => LineOutcome::Record(
            CoverageRecord::LineHit { line, hit_count: count },
        ),
        Some(ParsedLine::EndOfRecord) => LineOutcome::Record(CoverageRecord::EndOfRecord),
        _ => if is_line_data_marker(line) {
            LineOutcome::Malformed
        } else {
            LineOutcome::Ignored
        },
    }
}

/// Reads one line, without its line break, and decides what becomes of it.
pub fn decode_line(line: &[u8]) -> (outcome: LineOutcome)
    ensures
        outcome@ == line_outcome(line@),
{
    let parsed = match as_text(line) {
        Some(text) => Some(parse_record(text)),
        None => None,
    };
    judge_line(line, parsed)
}

/// The records that a sequence of lines decodes to, or the first malformed
/// line, whichever the lines give when taken in order.
pub open spec fn decoded_lines(text: Seq<Seq<u8>>) -> Result<Seq<RecordModel>, RecordError>
    decreases text.len(),
{
    if text.len() == 0 {
        Ok(Seq::<RecordModel>::empty())
    } else {
        match decoded_lines(text.drop_last()) {
            Err(e) => Err(e),
            Ok(head) => match line_outcome(text.last()) {
                OutcomeModel::Record(r) => Ok(head.push(r)),
                OutcomeModel::Ignored => Ok(head),
                OutcomeModel::Malformed => Err(
                    RecordError::MalformedRecord { line_number: text.len() as usize },
                ),
            },
        }
    }
}

/// The records that a buffer decodes to.
pub open spec fn decoded(buffer: Seq<u8>) -> Result<Seq<RecordModel>, RecordError> {
    decoded_lines(lines(buffer))
}

/// Decodes a buffer of record text into its coverage records. Lines that are
/// no coverage record are passed over; a malformed line data marker fails the
/// whole buffer, and an empty buffer gives no records.
pub fn parse_records(buffer: &[u8]) -> (r: Result<Vec<CoverageRecord>, RecordError>)
    ensures
        match decoded(buffer@) {
            Ok(records) => r is Ok && models(r->Ok_0@) == records,
            Err(e) => r == Err::<Vec<CoverageRecord>, RecordError>(e),
        },
{
    let mut records: Vec<CoverageRecord> = Vec::new();
    let mut at: usize = 0;
    let mut count: usize = 0;
    let ghost mut done: Seq<Seq<u8>> = Seq::empty();
    proof {
        assert(buffer@.skip(0) =~= buffer@);
        assert(done + lines(buffer@) =~= lines(buffer@));
        assert(models(records@) =~= Seq::<RecordModel>::empty());
    }
    while at < buffer.len()
        invariant
            at <= buffer@.len(),
            lines(buffer@) == done + lines(buffer@.skip(at as int)),
            decoded_lines(done) == Ok::<Seq<RecordModel>, RecordError>(models(records@)),
            count == done.len(),
            count <= at,
        decreases buffer@.len() - at,
    {
        let ghost rest = buffer@.skip(at as int);
        let mut end: usize = at;
        while end < buffer.len() && buffer[end] != LINE_FEED
            invariant
                at <= end <= buffer@.len(),
                forall|k: int| at <= k < end ==> buffer@[k] != 0x0Au8,
            decreases buffer@.len() - end,
        {
            end = end + 1;
        }
        proof {
            assert forall|k: int| 0 <= k < end - at implies rest[k] != 0x0Au8 by {
                assert(rest[k] == buffer@[at + k]);
            }
            lemma_line_end(rest, end - at);
        }
        let terminated: bool = end < buffer.len();
        let mut stop: usize = end;
        if terminated && stop > at && buffer[stop - 1] == CARRIAGE_RETURN {
            stop = stop - 1;
        }
        let line = slice_subrange(buffer, at, stop);
        let next: usize = if terminated {
            end + 1
        } else {
            end
        };
        proof {
            if terminated {
                assert(rest.take(end - at) =~= buffer@.subrange(at as int, end as int));
                assert(line@ =~= without_carriage_return(rest.take(end - at)));
            } else {
                assert(line@ =~= rest);
            }
            assert(line@ == first_line(rest));
            assert(after_first_line(rest) =~= buffer@.skip(next as int));
            assert(lines(buffer@) =~= done.push(line@) + lines(buffer@.skip(next as int)));
            assert(done.push(line@).drop_last() =~= done);
        }
        let outcome = decode_line(line);
        match outcome {
            LineOutcome::Record(record) => {
                proof {
                    assert(models(records@.push(record)) =~= models(records@).push(record@));
                }
                records.push(record);
            },
            LineOutcome::Ignored => {},
            LineOutcome::Malformed => {
                proof {
                    lemma_malformed_stays(done.push(line@), lines(buffer@.skip(next as int)));
                }
                return Err(RecordError::MalformedRecord { line_number: count + 1 });
            },
        }
        proof {
            done = done.push(line@);
        }
        count = count + 1;
        at = next;
    }
    proof {
        assert(lines(buffer@.skip(at as int)) =~= Seq::<Seq<u8>>::empty());
        assert(done + Seq::<Seq<u8>>::empty() =~= done);
    }
    Ok(records)
}

/// Once a line is malformed, the lines after it change nothing.
pub proof fn lemma_malformed_stays(head: Seq<Seq<u8>>, tail: Seq<Seq<u8>>)
    requires
        decoded_lines(head) is Err,
    ensures
        decoded_lines(head + tail) == decoded_lines(head),
    decreases tail.len(),
{
    if tail.len() == 0 {
        assert(head + tail =~= head);
    } else {
        lemma_malformed_stays(head, tail.drop_last());
        assert((head + tail).drop_last() =~= head + tail.drop_last());
    }
}

/// The text of a sequence of records: the line of each, with a line feed
/// after it.
pub open spec fn serialized(records: Seq<RecordModel>) -> Seq<u8>
    decreases records.len(),
{
    if records.len() == 0 {
        Seq::<u8>::empty()
    } else {
        serialized(records.drop_last()) + record_text(records.last()) + seq![0x0Au8]
    }
}

/// Appends the line of one record, with its line feed, to `out`.
pub fn write_record(out: &mut Vec<u8>, record: &CoverageRecord)
    ensures
        final(out)@ == old(out)@ + record_text(record@) + seq![0x0Au8],
{
    let ghost start = out@;
    match record {
        CoverageRecord::SourceFileBoundary { path } => {
            out.push(0x53u8);
            out.push(0x46u8);
            out.push(0x3Au8);
            out.extend_from_slice(path.as_slice());
            out.push(LINE_FEED);
            assert(out@ =~= start + source_file_text(path@) + seq![0x0Au8]);
        },
        CoverageRecord::LineHit { line, hit_count } => {
            out.push(0x44u8);
            out.push(0x41u8);
            out.push(0x3Au8);
            push_decimal(out, *line as u64);
            out.push(0x2Cu8);
            push_decimal(out, *hit_count);
            out.push(LINE_FEED);
            assert(out@ =~= start + line_data_text(*line, *hit_count) + seq![0x0Au8]);
        },
        CoverageRecord::EndOfRecord => {
            out.push(0x65u8);
            out.push(0x6Eu8);
            out.push(0x64u8);
            out.push(0x5Fu8);
            out.push(0x6Fu8);
            out.push(0x66u8);
            out.push(0x5Fu8);
            out.push(0x72u8);
            out.push(0x65u8);
            out.push(0x63u8);
            out.push(0x6Fu8);
            out.push(0x72u8);
            out.push(0x64u8);
            out.push(LINE_FEED);
            assert(out@ =~= start + end_of_record_text() + seq![0x0Au8]);
        },
    }
}

/// Writes records out as text, one line each, in order.
pub fn serialize_records(records: &Vec<CoverageRecord>) -> (out: Vec<u8>)
    ensures
        out@ == serialized(models(records@)),
{
    let mut out: Vec<u8> = Vec::new();
    let mut i: usize = 0;
    proof {
        assert(models(records@).take(0) =~= Seq::<RecordModel>::empty());
    }
    while i < records.len()
        invariant
            i <= records@.len(),
            out@ == serialized(models(records@).take(i as int)),
        decreases records@.len() - i,
    {
        write_record(&mut out, &records[i]);
        proof {
            let upto = models(records@).take(i + 1);
            assert(upto.drop_last() =~= models(records@).take(i as int));
            assert(upto.last() == records@[i as int]@);
        }
        i = i + 1;
    }
    proof {
        assert(models(records@).take(i as int) =~= models(records@));
    }
    out
}

} // verus!

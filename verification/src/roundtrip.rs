//! Writing records and decoding the text again gives the records back.

use vstd::prelude::*;
use vstd::utf8::{
    is_leading_byte_width_1, partial_valid_utf8, partial_valid_utf8_extend_ascii_block, valid_utf8,
    valid_utf8_concat,
};
use crate::decimal::{decimal, is_digit, lemma_decimal_digits, lemma_decimal_injective};
use crate::record::{
    after_first_line, decoded, decoded_lines, end_of_record_text, ends_in_line_break, first_line,
    has_prefix, is_line_data_text, lcov_record, lemma_line_end, line_data_prefix, line_data_text,
    line_end, line_outcome, lines, reading, record_reading, record_text, serialized,
    source_file_prefix, without_carriage_return, OutcomeModel, ParsedModel,
    RecordError, RecordModel,
};

verus! {

/// A path that a line of text can carry: UTF-8 text without a line feed in it
/// and without a carriage return at its end.
pub open spec fn path_fits_line(path: Seq<u8>) -> bool {
    &&& valid_utf8(path)
    &&& forall|i: int| 0 <= i < path.len() ==> path[i] != 0x0Au8
    &&& !(path.len() > 0 && path.last() == 0x0Du8)
}

/// Every source file boundary among the records has a path that fits a line.
pub open spec fn records_fit_lines(records: Seq<RecordModel>) -> bool {
    forall|i: int|
        0 <= i < records.len() ==> ((#[trigger] records[i]) matches RecordModel::SourceFileBoundary {
            path,
        } ==> path_fits_line(path))
}

/// A line of text as the writer emits it: valid UTF-8, no line feed in it, no
/// line break at its end.
pub open spec fn plain_line(text: Seq<u8>) -> bool {
    &&& valid_utf8(text)
    &&& forall|i: int| 0 <= i < text.len() ==> text[i] != 0x0Au8
    &&& !ends_in_line_break(text)
}

/// Bytes below 0x80 are valid UTF-8.
pub proof fn lemma_ascii_is_utf8(s: Seq<u8>)
    requires
        forall|i: int| 0 <= i < s.len() ==> s[i] <= 0x7Fu8,
    ensures
        valid_utf8(s),
{
    assert(s.subrange(0, 0) =~= Seq::<u8>::empty());
    assert(valid_utf8(Seq::<u8>::empty()));
    assert(partial_valid_utf8(s, 0));
    assert forall|i: int| 0 <= 0 <= i < s.len() <= s.len() implies #[trigger] is_leading_byte_width_1(
        s[i],
    ) by {}
    partial_valid_utf8_extend_ascii_block(s, 0, s.len() as int);
    assert(s.subrange(0, s.len() as int) =~= s);
}

/// The text of a line data record is plain, starts with `DA:` and holds, after
/// that, digits and one comma.
pub proof fn lemma_line_data_text_plain(line: u32, count: u64)
    ensures
        plain_line(line_data_text(line, count)),
        has_prefix(line_data_text(line, count), line_data_prefix()),
{
    let t = line_data_text(line, count);
    let a = decimal(line as nat);
    let b = decimal(count as nat);
    lemma_decimal_digits(line as nat);
    lemma_decimal_digits(count as nat);
    assert forall|i: int| 0 <= i < t.len() implies t[i] <= 0x7Fu8 && t[i] != 0x0Au8 && t[i]
        != 0x0Du8 by {
        if i < 3 {
        } else if i < 3 + a.len() {
            assert(t[i] == a[i - 3]);
            assert(is_digit(a[i - 3]));
        } else if i == 3 + a.len() {
        } else {
            assert(t[i] == b[i - 4 - a.len()]);
            assert(is_digit(b[i - 4 - a.len()]));
        }
    }
    lemma_ascii_is_utf8(t);
    assert(t.take(3) =~= line_data_prefix());
}

/// The text of a line data record gives its two numbers away.
pub proof fn lemma_line_data_text_injective(l1: u32, c1: u64, l2: u32, c2: u64)
    requires
        line_data_text(l1, c1) == line_data_text(l2, c2),
    ensures
        l1 == l2,
        c1 == c2,
{
    let t = line_data_text(l1, c1);
    let a1 = decimal(l1 as nat);
    let b1 = decimal(c1 as nat);
    let a2 = decimal(l2 as nat);
    let b2 = decimal(c2 as nat);
    lemma_decimal_digits(l1 as nat);
    lemma_decimal_digits(c1 as nat);
    lemma_decimal_digits(l2 as nat);
    lemma_decimal_digits(c2 as nat);
    let t2 = line_data_text(l2, c2);
    // The comma stands where the first run of digits ends.
    if a1.len() < a2.len() {
        assert(t[3 + a1.len() as int] == 0x2Cu8);
        assert(t2[3 + a1.len() as int] == a2[a1.len() as int]);
        assert(is_digit(a2[a1.len() as int]));
        assert(false);
    }
    if a2.len() < a1.len() {
        assert(t2[3 + a2.len() as int] == 0x2Cu8);
        assert(t[3 + a2.len() as int] == a1[a2.len() as int]);
        assert(is_digit(a1[a2.len() as int]));
        assert(false);
    }
    assert(a1 =~= a2) by {
        assert forall|i: int| 0 <= i < a1.len() implies a1[i] == a2[i] by {
            assert(t[3 + i] == a1[i]);
            assert(t2[3 + i] == a2[i]);
        }
    }
    assert(t.len() == 4 + a1.len() + b1.len());
    assert(t2.len() == 4 + a2.len() + b2.len());
    assert(b1 =~= b2) by {
        assert forall|i: int| 0 <= i < b1.len() implies b1[i] == b2[i] by {
            assert(t[4 + a1.len() + i] == b1[i]);
            assert(t2[4 + a2.len() + i] == b2[i]);
        }
    }
    lemma_decimal_injective(l1 as nat, l2 as nat);
    lemma_decimal_injective(c1 as nat, c2 as nat);
}

/// The text of a record whose path fits a line is a plain line, and decoding
/// that line gives the record.
pub proof fn lemma_record_text_decodes(r: RecordModel)
    requires
        r matches RecordModel::SourceFileBoundary { path } ==> path_fits_line(path),
    ensures
        plain_line(record_text(r)),
        line_outcome(record_text(r)) == OutcomeModel::Record(r),
{
    let t = record_text(r);
    let otherwise = lcov_record(t);
    match r {
        RecordModel::SourceFileBoundary { path } => {
            let p = source_file_prefix();
            assert forall|i: int| 0 <= i < p.len() implies p[i] <= 0x7Fu8 by {}
            lemma_ascii_is_utf8(p);
            valid_utf8_concat(p, path);
            assert(t.take(3) =~= p);
            assert(t.skip(3) =~= path);
            assert forall|i: int| 0 <= i < t.len() implies t[i] != 0x0Au8 by {
                if i >= 3 {
                    assert(t[i] == path[i - 3]);
                }
            }
            if path.len() > 0 {
                assert(t.last() == path.last());
            }
            assert(record_reading(t, otherwise) == ParsedModel::SourceFile { path });
        },
        RecordModel::LineHit { line, hit_count } => {
            lemma_line_data_text_plain(line, hit_count);
            assert(t[0] == 0x44u8);
            assert(!has_prefix(t, source_file_prefix())) by {
                if t.len() >= 3 {
                    assert(t.take(3)[0] == t[0]);
                }
            }
            assert(t != end_of_record_text()) by {
                assert(end_of_record_text()[0] == 0x65u8);
            }
            assert(is_line_data_text(t));
            let fields = choose|fields: (u32, u64)| t == line_data_text(fields.0, fields.1);
            assert(t == line_data_text((line, hit_count).0, (line, hit_count).1));
            lemma_line_data_text_injective(fields.0, fields.1, line, hit_count);
            assert(record_reading(t, otherwise) == ParsedModel::LineData {
                line,
                count: hit_count,
            });
        },
        RecordModel::EndOfRecord => {
            assert forall|i: int| 0 <= i < t.len() implies t[i] <= 0x7Fu8 && t[i] != 0x0Au8 by {}
            lemma_ascii_is_utf8(t);
            assert(t[0] == 0x65u8);
            assert(!has_prefix(t, source_file_prefix())) by {
                assert(t.take(3)[0] == t[0]);
            }
            assert(record_reading(t, otherwise) == ParsedModel::EndOfRecord);
        },
    }
    assert(reading(t) == Some(record_reading(t, otherwise)));
}

/// What stands before the first line feed holds none, and a line feed stands
/// there unless the buffer ends.
pub proof fn lemma_line_end_bounds(s: Seq<u8>)
    ensures
        line_end(s) <= s.len(),
        forall|k: int| 0 <= k < line_end(s) ==> s[k] != 0x0Au8,
        line_end(s) < s.len() ==> s[line_end(s) as int] == 0x0Au8,
    decreases s.len(),
{
    if s.len() == 0 || s[0] == 0x0Au8 {
    } else {
        let t = s.skip(1);
        lemma_line_end_bounds(t);
        assert forall|k: int| 0 <= k < line_end(s) implies s[k] != 0x0Au8 by {
            if k > 0 {
                assert(s[k] == t[k - 1]);
            }
        }
        if line_end(s) < s.len() {
            assert(s[line_end(s) as int] == t[line_end(t) as int]);
        }
    }
}

/// The lines of a buffer that ends in a line feed, followed by more bytes, are
/// the lines of the two parts.
pub proof fn lemma_lines_concat(a: Seq<u8>, b: Seq<u8>)
    requires
        a.len() == 0 || a.last() == 0x0Au8,
    ensures
        lines(a + b) == lines(a) + lines(b),
    decreases a.len(),
{
    if a.len() == 0 {
        assert(a + b =~= b);
        assert(lines(a) + lines(b) =~= lines(b));
    } else {
        let n = line_end(a) as int;
        lemma_line_end_bounds(a);
        assert(n < a.len()) by {
            if n == a.len() {
                assert(a[a.len() - 1] != 0x0Au8);
            }
        }
        let whole = a + b;
        assert forall|k: int| 0 <= k < n implies whole[k] != 0x0Au8 by {
            assert(whole[k] == a[k]);
        }
        assert(whole[n] == a[n]);
        lemma_line_end(whole, n);
        assert(whole.take(n) =~= a.take(n));
        assert(first_line(whole) == first_line(a));
        let rest = after_first_line(a);
        assert(after_first_line(whole) =~= rest + b);
        assert(rest.len() == 0 || rest.last() == 0x0Au8) by {
            if rest.len() > 0 {
                assert(rest.last() == a.last());
            }
        }
        lemma_lines_concat(rest, b);
        assert(lines(whole) =~= lines(a) + lines(b));
    }
}

/// A plain line followed by a line feed is one line.
pub proof fn lemma_lines_of_plain_line(text: Seq<u8>)
    requires
        plain_line(text),
    ensures
        lines(text + seq![0x0Au8]) == seq![text],
{
    let s = text + seq![0x0Au8];
    assert forall|k: int| 0 <= k < text.len() implies s[k] != 0x0Au8 by {
        assert(s[k] == text[k]);
    }
    lemma_line_end(s, text.len() as int);
    assert(s.take(text.len() as int) =~= text);
    assert(without_carriage_return(text) == text);
    assert(after_first_line(s) =~= Seq::<u8>::empty());
    assert(lines(Seq::<u8>::empty()) =~= Seq::<Seq<u8>>::empty());
    assert(lines(s) =~= seq![text]);
}

/// The lines of each record, in order.
pub open spec fn record_lines(records: Seq<RecordModel>) -> Seq<Seq<u8>> {
    Seq::new(records.len(), |i: int| record_text(records[i]))
}

/// The text that the writer gives for records whose paths fit a line has one
/// line for each record, and each line is the record's text.
pub proof fn lemma_lines_of_serialized(records: Seq<RecordModel>)
    requires
        records_fit_lines(records),
    ensures
        lines(serialized(records)) == record_lines(records),
        serialized(records).len() == 0 || serialized(records).last() == 0x0Au8,
    decreases records.len(),
{
    if records.len() == 0 {
        assert(record_lines(records) =~= Seq::<Seq<u8>>::empty());
    } else {
        let head = records.drop_last();
        let last = records.last();
        assert(records_fit_lines(head)) by {
            assert forall|i: int| 0 <= i < head.len() implies ((#[trigger] head[i]) matches RecordModel::SourceFileBoundary {
                path,
            } ==> path_fits_line(path)) by {
                assert(head[i] == records[i]);
            }
        }
        lemma_lines_of_serialized(head);
        lemma_record_text_decodes(last);
        let text = record_text(last);
        lemma_lines_of_plain_line(text);
        assert(serialized(records) =~= serialized(head) + (text + seq![0x0Au8]));
        lemma_lines_concat(serialized(head), text + seq![0x0Au8]);
        assert(record_lines(records) =~= record_lines(head) + seq![text]);
    }
}

/// Lines that are the texts of records decode to those records.
pub proof fn lemma_record_lines_decode(records: Seq<RecordModel>)
    requires
        records_fit_lines(records),
    ensures
        decoded_lines(record_lines(records)) == Ok::<Seq<RecordModel>, RecordError>(records),
    decreases records.len(),
{
    if records.len() == 0 {
        assert(records =~= Seq::<RecordModel>::empty());
    } else {
        let head = records.drop_last();
        let last = records.last();
        assert(records_fit_lines(head)) by {
            assert forall|i: int| 0 <= i < head.len() implies ((#[trigger] head[i]) matches RecordModel::SourceFileBoundary {
                path,
            } ==> path_fits_line(path)) by {
                assert(head[i] == records[i]);
            }
        }
        lemma_record_lines_decode(head);
        lemma_record_text_decodes(last);
        assert(record_lines(records).drop_last() =~= record_lines(head));
        assert(record_lines(records).last() == record_text(last));
        assert(head.push(last) =~= records);
    }
}

/// Writing records and decoding the text gives the same records back, in the
/// same order, for all records whose source paths fit a line of text.
pub proof fn lemma_round_trip(records: Seq<RecordModel>)
    requires
        records_fit_lines(records),
    ensures
        decoded(serialized(records)) == Ok::<Seq<RecordModel>, RecordError>(records),
{
    lemma_lines_of_serialized(records);
    lemma_record_lines_decode(records);
}

} // verus!

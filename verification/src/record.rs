//! Records: one line of text holds a station name, the delimiter `;` and a
//! reading.
//!
//! The name is what stands before the first delimiter, byte for byte. The
//! reading is what stands after it, without the white space at its ends. A
//! line that begins with `#` is a comment. A line that holds no record is
//! skipped, and classified by the reason.

use crate::arraystring128::ArrayString128;
use crate::arraystring128::MAX_STRING_LEN;
use crate::reading::is_reading;
use crate::reading::parse_reading;
use crate::reading::units;
use crate::scan::find_byte;
use crate::scan::first_index_of;
use crate::scan::trim;
use crate::scan::trim_range;
use std::str::FromStr;
use vstd::prelude::*;
use vstd::slice::slice_subrange;
use vstd::string::StringSliceAdditionalSpecFns;
use vstd::utf8::encode_utf8_valid_utf8;
use vstd::utf8::is_char_boundary;
use vstd::utf8::is_char_boundary_iff_not_is_continuation_byte;
use vstd::utf8::is_char_boundary_start_end_of_seq;
use vstd::utf8::valid_utf8;
use vstd::utf8::valid_utf8_split;

verus! {

/// The byte `;`, which parts the name from the reading.
pub const DELIMITER: u8 = 0x3b;

/// The byte that ends a line.
pub const NEWLINE: u8 = 0x0a;

/// The byte `#`, with which a comment begins.
pub const COMMENT: u8 = 0x23;

/// Why a line holds no record.
#[derive(Copy, Clone, Debug, PartialEq, Eq, Structural)]
pub enum Skipped {
    /// The line is a comment.
    Comment,
    /// The line holds no delimiter.
    MissingDelimiter,
    /// The name is longer than [`MAX_STRING_LEN`] bytes.
    OversizedKey,
    /// What follows the delimiter is no reading.
    UnparsableValue,
}

/// What stands before the first delimiter of `line`.
pub open spec fn key_bytes(line: Seq<u8>) -> Seq<u8> {
    line.take(first_index_of(line, DELIMITER))
}

/// What stands after the first delimiter of `line`, trimmed.
pub open spec fn value_text(line: Seq<u8>) -> Seq<u8> {
    trim(line.skip(first_index_of(line, DELIMITER) + 1))
}

/// The record that `line` holds, as the bytes of the name and the units of the
/// reading, or why it holds none. A comment is found first, then a missing
/// delimiter, then an oversized name, then an unparsable reading.
pub open spec fn classify(line: Seq<u8>) -> Result<(Seq<u8>, int), Skipped> {
    if line.len() > 0 && line[0] == COMMENT {
        Err(Skipped::Comment)
    } else if first_index_of(line, DELIMITER) >= line.len() {
        Err(Skipped::MissingDelimiter)
    } else if key_bytes(line).len() > MAX_STRING_LEN {
        Err(Skipped::OversizedKey)
    } else if !is_reading(value_text(line)) {
        Err(Skipped::UnparsableValue)
    } else {
        Ok((key_bytes(line), units(value_text(line))))
    }
}

/// In valid UTF-8 a character ends where a byte below 0x80 stands.
proof fn lemma_boundary_after_ascii(bytes: Seq<u8>, i: int)
    requires
        valid_utf8(bytes),
        0 <= i < bytes.len(),
        bytes[i] < 0x80,
    ensures
        is_char_boundary(bytes, i),
        is_char_boundary(bytes, i + 1),
{
    is_char_boundary_iff_not_is_continuation_byte(bytes, i);
    if i + 1 == bytes.len() {
        is_char_boundary_start_end_of_seq(bytes);
    } else {
        valid_utf8_split(bytes, i);
        let tail = bytes.subrange(i, bytes.len() as int);
        let rest = tail.subrange(1, tail.len() as int);
        assert(valid_utf8(rest));
        is_char_boundary_iff_not_is_continuation_byte(bytes, i + 1);
    }
}

/// Reads one line, with or without the newline that ends it.
///
/// Returns the name and the reading, or why the line holds none.
pub fn parse_line(line: &str) -> (r: Result<(ArrayString128, i64), Skipped>)
    ensures
        match classify(line.spec_bytes()) {
            Ok((key, value)) => r matches Ok((k, v)) && k@ == key && v == value,
            Err(e) => r matches Err(f) && f == e,
        },
{
    let bytes = line.as_bytes();
    if bytes.len() > 0 && bytes[0] == COMMENT {
        return Err(Skipped::Comment);
    }
    let i: usize = find_byte(bytes, DELIMITER);
    if i >= bytes.len() {
        return Err(Skipped::MissingDelimiter);
    }
    proof {
        encode_utf8_valid_utf8(line@);
        crate::scan::lemma_first_index_of(bytes@, DELIMITER);
        lemma_boundary_after_ascii(bytes@, i as int);
    }
    let (name, _) = line.split_at(i);
    let key = match ArrayString128::from_str(name) {
        Ok(k) => k,
        Err(_) => {
            return Err(Skipped::OversizedKey);
        },
    };
    let (lo, hi) = trim_range(bytes, i + 1, bytes.len());
    let token = slice_subrange(bytes, lo, hi);
    match parse_reading(token) {
        Some(v) => Ok((key, v)),
        None => Err(Skipped::UnparsableValue),
    }
}

/// The length of the first line of `text`, with the newline that ends it: all
/// of `text` if it holds no newline.
pub open spec fn first_line_len(text: Seq<u8>) -> int {
    let i = first_index_of(text, NEWLINE);
    if 0 <= i < text.len() {
        i + 1
    } else {
        text.len() as int
    }
}

/// The lines of `text`, each with the newline that ends it; the last one may
/// have none. An empty text has no line.
pub open spec fn lines_of(text: Seq<u8>) -> Seq<Seq<u8>>
    decreases text.len(),
{
    if text.len() == 0 {
        Seq::empty()
    } else {
        seq![text.take(first_line_len(text))] + lines_of(text.skip(first_line_len(text)))
    }
}

/// The records among `lines`, in their order: the name and the reading of
/// each line that holds one. Lines that hold none leave no trace.
pub open spec fn records_in(lines: Seq<Seq<u8>>) -> Seq<(Seq<u8>, int)>
    decreases lines.len(),
{
    if lines.len() == 0 {
        Seq::empty()
    } else {
        match classify(lines.last()) {
            Ok(record) => records_in(lines.drop_last()).push(record),
            Err(_) => records_in(lines.drop_last()),
        }
    }
}

/// The first lines of a text hold no more records than all of them.
pub proof fn lemma_records_in_prefix(lines: Seq<Seq<u8>>, k: int)
    requires
        0 <= k <= lines.len(),
    ensures
        records_in(lines.take(k)).len() <= records_in(lines).len(),
    decreases lines.len() - k,
{
    if k == lines.len() {
        assert(lines.take(k) =~= lines);
    } else {
        lemma_records_in_prefix(lines, k + 1);
        assert(lines.take(k + 1).drop_last() =~= lines.take(k));
    }
}

/// A text holds no more records than it has bytes.
pub proof fn lemma_records_in_bound(text: Seq<u8>)
    ensures
        records_in(lines_of(text)).len() <= lines_of(text).len() <= text.len(),
{
    lemma_lines_of_len(text);
    lemma_records_in_len(lines_of(text));
}

/// A text has no more lines than bytes.
proof fn lemma_lines_of_len(text: Seq<u8>)
    ensures
        lines_of(text).len() <= text.len(),
    decreases text.len(),
{
    if text.len() > 0 {
        lemma_lines_of_len(text.skip(first_line_len(text)));
    }
}

/// Lines hold no more records than there are lines.
proof fn lemma_records_in_len(lines: Seq<Seq<u8>>)
    ensures
        records_in(lines).len() <= lines.len(),
    decreases lines.len(),
{
    if lines.len() > 0 {
        lemma_records_in_len(lines.drop_last());
    }
}

/// A line that holds no record leaves no trace: the records are those of the
/// lines without it.
pub proof fn lemma_skipped_line_leaves_no_trace(lines: Seq<Seq<u8>>, i: int)
    requires
        0 <= i < lines.len(),
        classify(lines[i]) is Err,
    ensures
        records_in(lines) == records_in(lines.remove(i)),
    decreases lines.len(),
{
    if i < lines.len() - 1 {
        let front = lines.drop_last();
        lemma_skipped_line_leaves_no_trace(front, i);
        assert(lines.remove(i).drop_last() =~= front.remove(i));
    }
}

/// Parts a text into its first line and the rest. The rest is shorter than
/// the text, unless the text is empty.
pub fn split_first_line(text: &str) -> (r: (&str, &str))
    ensures
        r.0.spec_bytes() == text.spec_bytes().take(first_line_len(text.spec_bytes())),
        r.1.spec_bytes() == text.spec_bytes().skip(first_line_len(text.spec_bytes())),
        text.spec_bytes().len() > 0 ==> r.1.spec_bytes().len() < text.spec_bytes().len(),
{
    let bytes = text.as_bytes();
    let i: usize = find_byte(bytes, NEWLINE);
    let n: usize = if i < bytes.len() {
        i + 1
    } else {
        i
    };
    proof {
        encode_utf8_valid_utf8(text@);
        crate::scan::lemma_first_index_of(bytes@, NEWLINE);
        if i < bytes.len() {
            lemma_boundary_after_ascii(bytes@, i as int);
        } else {
            is_char_boundary_start_end_of_seq(bytes@);
        }
    }
    text.split_at(n)
}

} // verus!

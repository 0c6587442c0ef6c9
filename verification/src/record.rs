//! Lines of the buffer and the readings they hold.
//!
//! A line is a key, the delimiter, and a measurement. The key is everything
//! before the first delimiter and must be UTF-8 text; the measurement is
//! everything after it and must be a decimal number. A line of any other
//! shape holds no reading.

use vstd::prelude::*;
use vstd::slice::{slice_subrange, slice_to_vec};
use vstd::utf8::valid_utf8;
use crate::number::{decimal_spec, parse_decimal};
use crate::scan::{find_byte, index_of, lemma_index_of_first, lemma_index_of_is, NEWLINE};
use crate::stats::VALUE_LIMIT;

verus! {

/// The byte between key and measurement.
pub const DELIMITER: u8 = 59;

/// One measurement for one key, as mathematical values.
pub struct Reading {
    pub key: Seq<u8>,
    pub value: int,
}

impl Reading {
    /// The key is text and the measurement is in range.
    pub open spec fn well_formed(self) -> bool {
        &&& valid_utf8(self.key)
        &&& -VALUE_LIMIT <= self.value <= VALUE_LIMIT
    }
}

/// One measurement for one key, read from one line.
#[derive(Debug, PartialEq, Eq)]
pub struct Record {
    pub key: Vec<u8>,
    pub value: i64,
}

impl View for Record {
    type V = Reading;

    open spec fn view(&self) -> Reading {
        Reading { key: self.key@, value: self.value as int }
    }
}

/// The reading that a line holds, if it holds one.
pub open spec fn parse_line_spec(line: Seq<u8>) -> Option<Reading> {
    let at = index_of(line, DELIMITER);
    if 0 <= at < line.len() && valid_utf8(line.take(at)) {
        match decimal_spec(line.skip(at + 1)) {
            Some(value) => Some(Reading { key: line.take(at), value }),
            None => None,
        }
    } else {
        None
    }
}

/// The first line of a non-empty buffer, without its terminator.
pub open spec fn first_line(s: Seq<u8>) -> Seq<u8> {
    s.take(index_of(s, NEWLINE))
}

/// The readings of the lines of a buffer, in the order of the lines.
pub open spec fn readings(s: Seq<u8>) -> Seq<Reading>
    decreases s.len(),
{
    if s.len() == 0 {
        Seq::empty()
    } else {
        let at = index_of(s, NEWLINE);
        let rest = if 0 <= at < s.len() {
            readings(s.skip(at + 1))
        } else {
            Seq::empty()
        };
        match parse_line_spec(first_line(s)) {
            Some(r) => seq![r] + rest,
            None => rest,
        }
    }
}

/// Whether a buffer is empty or ends with a line terminator, so that
/// whatever follows it starts a new line.
pub open spec fn ends_lines(s: Seq<u8>) -> bool {
    s.len() == 0 || s.last() == NEWLINE
}

/// A reading that a line holds is well formed, and the line is not empty.
pub proof fn lemma_parse_line_well_formed(line: Seq<u8>)
    requires
        parse_line_spec(line) is Some,
    ensures
        parse_line_spec(line).unwrap().well_formed(),
        line.len() >= 1,
{
}

/// Every reading of a buffer is well formed.
pub proof fn lemma_readings_well_formed(s: Seq<u8>)
    ensures
        forall|i: int| 0 <= i < readings(s).len() ==> (#[trigger] readings(s)[i]).well_formed(),
    decreases s.len(),
{
    if s.len() != 0 {
        let at = index_of(s, NEWLINE);
        let rest = if 0 <= at < s.len() {
            readings(s.skip(at + 1))
        } else {
            Seq::empty()
        };
        if 0 <= at < s.len() {
            lemma_readings_well_formed(s.skip(at + 1));
        }
        if parse_line_spec(first_line(s)) is Some {
            lemma_parse_line_well_formed(first_line(s));
        }
        assert forall|i: int| 0 <= i < readings(s).len() implies (#[trigger] readings(
            s,
        )[i]).well_formed() by {
            if parse_line_spec(first_line(s)) is Some && i > 0 {
                assert(readings(s)[i] == rest[i - 1]);
            }
        }
    }
}

/// A buffer holds at most as many readings as bytes.
pub proof fn lemma_readings_len(s: Seq<u8>)
    ensures
        readings(s).len() <= s.len(),
    decreases s.len(),
{
    if s.len() != 0 {
        let at = index_of(s, NEWLINE);
        lemma_index_of_first(s, NEWLINE);
        if at < s.len() {
            lemma_readings_len(s.skip(at + 1));
        }
        if parse_line_spec(first_line(s)) is Some {
            lemma_parse_line_well_formed(first_line(s));
        }
    }
}

/// The readings of one line, with or without its terminator.
pub open spec fn line_readings(line: Seq<u8>) -> Seq<Reading> {
    match parse_line_spec(line) {
        Some(r) => seq![r],
        None => Seq::empty(),
    }
}

/// A buffer that is one line without a terminator holds the readings of
/// that line.
pub proof fn lemma_readings_of_line(line: Seq<u8>)
    requires
        forall|i: int| 0 <= i < line.len() ==> line[i] != NEWLINE,
    ensures
        readings(line) == line_readings(line),
{
    if line.len() != 0 {
        lemma_index_of_is(line, NEWLINE, line.len() as int);
        assert(first_line(line) =~= line);
        assert(seq![parse_line_spec(line).unwrap()] + Seq::<Reading>::empty() =~= seq![
            parse_line_spec(line).unwrap(),
        ]);
    }
}

/// A buffer that is one terminated line holds the readings of that line.
pub proof fn lemma_readings_of_terminated_line(line: Seq<u8>)
    requires
        forall|i: int| 0 <= i < line.len() ==> line[i] != NEWLINE,
    ensures
        readings(line.push(NEWLINE)) == line_readings(line),
{
    let s = line.push(NEWLINE);
    lemma_index_of_is(s, NEWLINE, line.len() as int);
    assert(first_line(s) =~= line);
    let n = line.len() as int;
    assert(s.skip(n + 1).len() == 0);
    assert(readings(s.skip(n + 1)) =~= Seq::<Reading>::empty());
    assert(seq![parse_line_spec(line).unwrap()] + Seq::<Reading>::empty() =~= seq![
        parse_line_spec(line).unwrap(),
    ]);
}

/// The readings of a buffer that ends its lines, followed by another buffer,
/// are the readings of the one followed by those of the other.
pub proof fn lemma_readings_concat(a: Seq<u8>, b: Seq<u8>)
    requires
        ends_lines(a),
    ensures
        readings(a + b) == readings(a) + readings(b),
    decreases a.len(),
{
    if a.len() == 0 {
        assert(a + b =~= b);
        assert(readings(a) + readings(b) =~= readings(b));
    } else {
        let at = index_of(a, NEWLINE);
        lemma_index_of_first(a, NEWLINE);
        if at >= a.len() {
            assert(a[a.len() - 1] != NEWLINE);
        }
        let whole = a + b;
        assert forall|j: int| 0 <= j < at implies whole[j] != NEWLINE by {
            assert(whole[j] == a[j]);
        }
        assert(whole[at] == a[at]);
        lemma_index_of_is(whole, NEWLINE, at);
        assert(first_line(whole) =~= first_line(a));
        let tail = a.skip(at + 1);
        assert(whole.skip(at + 1) =~= tail + b);
        assert(ends_lines(tail)) by {
            if tail.len() != 0 {
                assert(tail.last() == a.last());
            }
        }
        lemma_readings_concat(tail, b);
        match parse_line_spec(first_line(a)) {
            Some(r) => {
                assert(seq![r] + (readings(tail) + readings(b)) =~= (seq![r] + readings(tail))
                    + readings(b));
            },
            None => {},
        }
    }
}

/// `core::str::from_utf8`: whether the bytes are well-formed UTF-8.
#[verifier::external_body]
fn is_text(bytes: &[u8]) -> (yes: bool)
    ensures
        yes == valid_utf8(bytes@),
{
    core::str::from_utf8(bytes).is_ok()
}

impl Record {
    /// The key is text and the measurement is in range.
    pub open spec fn wf(&self) -> bool {
        self@.well_formed()
    }
}

/// Reads one line, given without its terminator. `None` where the line has no
/// delimiter, its key is not text, or its measurement is not a decimal
/// number in range.
pub fn parse_line(line: &[u8]) -> (out: Option<Record>)
    ensures
        match out {
            Some(r) => parse_line_spec(line@) == Some(r@) && r.wf(),
            None => parse_line_spec(line@) is None,
        },
{
    let at: usize = find_byte(line, 0, DELIMITER);
    proof {
        assert(line@.skip(0) =~= line@);
    }
    if at >= line.len() {
        return None;
    }
    let key = slice_subrange(line, 0, at);
    let text = slice_subrange(line, at + 1, line.len());
    proof {
        assert(key@ =~= line@.take(at as int));
        assert(text@ =~= line@.skip(at + 1));
    }
    if !is_text(key) {
        return None;
    }
    match parse_decimal(text) {
        Some(value) => Some(Record { key: slice_to_vec(key), value }),
        None => None,
    }
}

} // verus!

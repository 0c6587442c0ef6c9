//! The text of the report: `{key=min/mean/max, ...}`, every number with one
//! fractional digit.

use vstd::prelude::*;
use vstd::pervasive::unreached;
use vstd::utf8::{
    decode_utf8, decode_utf8_encode_utf8, encode_utf8, is_leading_byte_width_1,
    partial_valid_utf8, partial_valid_utf8_extend_ascii_block, valid_utf8, valid_utf8_concat,
};
use crate::number::{decimal_text, digits_of, magnitude, push_decimal};
use crate::report::{rows_of, CityTemp, Row};

verus! {

/// Between a key and its numbers.
pub const EQUALS: u8 = 61;

/// Between the numbers of a row.
pub const SLASH: u8 = 47;

/// Between two rows, followed by a space.
pub const COMMA: u8 = 44;

/// After the comma between two rows.
pub const SPACE: u8 = 32;

/// Opens the report.
pub const OPEN_BRACE: u8 = 123;

/// Closes the report.
pub const CLOSE_BRACE: u8 = 125;

/// The text of one row: `key=min/mean/max`.
pub open spec fn row_text(r: Row) -> Seq<u8> {
    r.key + seq![EQUALS] + decimal_text(r.min) + seq![SLASH] + decimal_text(r.mean) + seq![SLASH]
        + decimal_text(r.max)
}

/// The texts of the rows, in order, with a comma and a space between each
/// two.
pub open spec fn joined_rows(rows: Seq<Row>) -> Seq<u8>
    decreases rows.len(),
{
    if rows.len() == 0 {
        Seq::empty()
    } else if rows.len() == 1 {
        row_text(rows[0])
    } else {
        joined_rows(rows.drop_last()) + seq![COMMA, SPACE] + row_text(rows.last())
    }
}

/// The text of the report: the joined rows between braces.
pub open spec fn render_spec(rows: Seq<Row>) -> Seq<u8> {
    seq![OPEN_BRACE] + joined_rows(rows) + seq![CLOSE_BRACE]
}

/// Whether every byte is an ASCII character.
pub open spec fn is_ascii_bytes(s: Seq<u8>) -> bool {
    forall|i: int| 0 <= i < s.len() ==> #[trigger] s[i] < 128
}

/// ASCII characters are text.
pub proof fn lemma_ascii_is_text(s: Seq<u8>)
    requires
        is_ascii_bytes(s),
    ensures
        valid_utf8(s),
{
    assert(s.subrange(0, 0) =~= Seq::<u8>::empty());
    assert(partial_valid_utf8(s, 0));
    assert forall|i: int| 0 <= i < s.len() implies #[trigger] is_leading_byte_width_1(s[i]) by {
        assert(s[i] < 128);
    }
    partial_valid_utf8_extend_ascii_block(s, 0, s.len() as int);
    assert(s.subrange(0, s.len() as int) =~= s);
}

/// The digits of a number are ASCII characters.
pub proof fn lemma_digits_are_ascii(n: nat)
    ensures
        is_ascii_bytes(digits_of(n)),
    decreases n,
{
    if n >= 10 {
        lemma_digits_are_ascii(n / 10);
    }
}

/// The text of a measurement is text.
pub proof fn lemma_decimal_is_text(v: int)
    ensures
        valid_utf8(decimal_text(v)),
{
    lemma_digits_are_ascii(magnitude(v) / 10);
    assert(is_ascii_bytes(decimal_text(v)));
    lemma_ascii_is_text(decimal_text(v));
}

/// The text of a row whose key is text is text.
pub proof fn lemma_row_is_text(r: Row)
    requires
        valid_utf8(r.key),
    ensures
        valid_utf8(row_text(r)),
{
    lemma_decimal_is_text(r.min);
    lemma_decimal_is_text(r.mean);
    lemma_decimal_is_text(r.max);
    lemma_ascii_is_text(seq![EQUALS]);
    lemma_ascii_is_text(seq![SLASH]);
    let a = r.key + seq![EQUALS];
    valid_utf8_concat(r.key, seq![EQUALS]);
    let b = a + decimal_text(r.min);
    valid_utf8_concat(a, decimal_text(r.min));
    let c = b + seq![SLASH];
    valid_utf8_concat(b, seq![SLASH]);
    let d = c + decimal_text(r.mean);
    valid_utf8_concat(c, decimal_text(r.mean));
    let e = d + seq![SLASH];
    valid_utf8_concat(d, seq![SLASH]);
    valid_utf8_concat(e, decimal_text(r.max));
}

/// The joined texts of rows whose keys are text are text.
pub proof fn lemma_joined_is_text(rows: Seq<Row>)
    requires
        forall|i: int| 0 <= i < rows.len() ==> valid_utf8((#[trigger] rows[i]).key),
    ensures
        valid_utf8(joined_rows(rows)),
    decreases rows.len(),
{
    if rows.len() == 0 {
    } else if rows.len() == 1 {
        lemma_row_is_text(rows[0]);
    } else {
        let front = rows.drop_last();
        assert forall|i: int| 0 <= i < front.len() implies valid_utf8((#[trigger] front[i]).key) by {
            assert(front[i] == rows[i]);
        }
        lemma_joined_is_text(front);
        lemma_row_is_text(rows.last());
        lemma_ascii_is_text(seq![COMMA, SPACE]);
        valid_utf8_concat(joined_rows(front), seq![COMMA, SPACE]);
        valid_utf8_concat(joined_rows(front) + seq![COMMA, SPACE], row_text(rows.last()));
    }
}

/// The report of rows whose keys are text is text.
pub proof fn lemma_report_is_text(rows: Seq<Row>)
    requires
        forall|i: int| 0 <= i < rows.len() ==> valid_utf8((#[trigger] rows[i]).key),
    ensures
        valid_utf8(render_spec(rows)),
{
    lemma_joined_is_text(rows);
    lemma_ascii_is_text(seq![OPEN_BRACE]);
    lemma_ascii_is_text(seq![CLOSE_BRACE]);
    valid_utf8_concat(seq![OPEN_BRACE], joined_rows(rows));
    valid_utf8_concat(seq![OPEN_BRACE] + joined_rows(rows), seq![CLOSE_BRACE]);
}

/// `String::from_utf8`: the string that the bytes encode, where they are
/// well-formed UTF-8, and nothing where they are not.
#[verifier::external_body]
fn text_of(bytes: Vec<u8>) -> (text: Option<String>)
    ensures
        valid_utf8(bytes@) ==> text is Some && text.unwrap()@ == decode_utf8(bytes@),
        !valid_utf8(bytes@) ==> text is None,
{
    String::from_utf8(bytes).ok()
}

/// The string that bytes known to be text encode.
fn into_text(bytes: Vec<u8>) -> (text: String)
    requires
        valid_utf8(bytes@),
    ensures
        encode_utf8(text@) == bytes@,
{
    proof {
        decode_utf8_encode_utf8(bytes@);
    }
    match text_of(bytes) {
        Some(text) => text,
        None => unreached(),
    }
}

/// Appends `bytes`.
fn push_all(out: &mut Vec<u8>, bytes: &[u8])
    ensures
        final(out)@ == old(out)@ + bytes@,
{
    let mut i: usize = 0;
    while i < bytes.len()
        invariant
            i <= bytes.len(),
            out@ == old(out)@ + bytes@.take(i as int),
        decreases bytes.len() - i,
    {
        out.push(bytes[i]);
        proof {
            assert(bytes@.take(i + 1) =~= bytes@.take(i as int).push(bytes@[i as int]));
            assert(out@ =~= old(out)@ + bytes@.take(i + 1));
        }
        i = i + 1;
    }
    proof {
        assert(bytes@.take(i as int) =~= bytes@);
    }
}

impl CityTemp {
    /// Appends the text of this entry: `key=min/mean/max`.
    pub fn push_text(&self, out: &mut Vec<u8>)
        ensures
            final(out)@ == old(out)@ + row_text(self@),
    {
        push_all(out, self.city.as_slice());
        out.push(EQUALS);
        push_decimal(out, self.min_temp);
        out.push(SLASH);
        push_decimal(out, self.mean_temp);
        out.push(SLASH);
        push_decimal(out, self.max_temp);
        proof {
            assert(out@ =~= old(out)@ + row_text(self@));
        }
    }

    /// The text of this entry: `key=min/mean/max`. The key must be text.
    pub fn to_text(&self) -> (text: String)
        requires
            valid_utf8(self.city@),
        ensures
            encode_utf8(text@) == row_text(self@),
    {
        let mut out: Vec<u8> = Vec::new();
        self.push_text(&mut out);
        proof {
            lemma_row_is_text(self@);
            assert(out@ =~= row_text(self@));
        }
        into_text(out)
    }
}

/// The bytes of the report of the entries, in the order given.
pub fn render_bytes(entries: &Vec<CityTemp>) -> (out: Vec<u8>)
    ensures
        out@ == render_spec(rows_of(entries@)),
{
    let ghost rows = rows_of(entries@);
    let mut out: Vec<u8> = Vec::new();
    out.push(OPEN_BRACE);
    let mut i: usize = 0;
    while i < entries.len()
        invariant
            i <= entries.len(),
            rows == rows_of(entries@),
            out@ == seq![OPEN_BRACE] + joined_rows(rows.take(i as int)),
        decreases entries.len() - i,
    {
        if i > 0 {
            out.push(COMMA);
            out.push(SPACE);
        }
        entries[i].push_text(&mut out);
        proof {
            let next = rows.take(i + 1);
            assert(next.drop_last() =~= rows.take(i as int));
            assert(next.last() == entries@[i as int]@);
            if i == 0 {
                assert(joined_rows(rows.take(0)) =~= Seq::<u8>::empty());
                assert(next[0] == next.last());
            }
            assert(out@ =~= seq![OPEN_BRACE] + joined_rows(next));
        }
        i = i + 1;
    }
    out.push(CLOSE_BRACE);
    proof {
        assert(rows.take(i as int) =~= rows);
    }
    out
}

/// The report of the entries, in the order given. Every key must be text.
pub fn render(entries: &Vec<CityTemp>) -> (text: String)
    requires
        forall|i: int| 0 <= i < entries.len() ==> valid_utf8((#[trigger] entries[i]).city@),
    ensures
        encode_utf8(text@) == render_spec(rows_of(entries@)),
{
    let out = render_bytes(entries);
    proof {
        let rows = rows_of(entries@);
        assert forall|i: int| 0 <= i < rows.len() implies valid_utf8((#[trigger] rows[i]).key) by {
            assert(valid_utf8(entries[i].city@));
        }
        lemma_report_is_text(rows);
    }
    into_text(out)
}

} // verus!

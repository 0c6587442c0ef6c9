//! Fixed-point measurements: reading decimal text into tenths, and writing
//! tenths back as text with one fractional digit.
//!
//! A measurement is written as an optional sign, digits, and optionally a
//! point followed by more digits; at least one digit must be present. It is
//! kept as a whole number of tenths. Fractional digits beyond the first are
//! rounded to the nearest tenth, halves away from zero. A measurement whose
//! magnitude exceeds `VALUE_LIMIT` tenths is out of range and does not parse.

use vstd::prelude::*;
use crate::scan::{find_byte, index_of, lemma_index_of_first, lemma_index_of_is};
use crate::stats::VALUE_LIMIT;

verus! {

/// The decimal point.
pub const POINT: u8 = 46;

/// The minus sign.
pub const MINUS: u8 = 45;

/// The plus sign.
pub const PLUS: u8 = 43;

/// The digit zero.
pub const ZERO: u8 = 48;

/// The digit five, from which on a second fractional digit rounds up.
pub const FIVE: u8 = 53;

/// The digit nine.
pub const NINE: u8 = 57;

/// Whole parts from this value on put a measurement out of range.
pub const WHOLE_CAP: i64 = 100_000_000_000_000_000;

/// Whether a byte is a decimal digit.
pub open spec fn is_digit(b: u8) -> bool {
    ZERO <= b && b <= NINE
}

/// Whether every byte is a decimal digit.
pub open spec fn all_digits(s: Seq<u8>) -> bool {
    forall|i: int| 0 <= i < s.len() ==> is_digit(#[trigger] s[i])
}

/// The number that a sequence of digits denotes; zero for the empty sequence.
pub open spec fn digits_value(s: Seq<u8>) -> nat
    decreases s.len(),
{
    if s.len() == 0 {
        0
    } else {
        digits_value(s.drop_last()) * 10 + (s.last() - ZERO) as nat
    }
}

/// Tenths denoted by the digits before and after the point, the second
/// fractional digit deciding the rounding.
pub open spec fn tenths_of(whole: Seq<u8>, frac: Seq<u8>) -> nat {
    digits_value(whole) * 10 + (if frac.len() > 0 {
        (frac[0] - ZERO) as nat
    } else {
        0
    }) + (if frac.len() > 1 && frac[1] >= FIVE {
        1nat
    } else {
        0
    })
}

/// The digits before the point of an unsigned decimal text.
pub open spec fn whole_part(body: Seq<u8>) -> Seq<u8> {
    body.take(index_of(body, POINT))
}

/// The digits after the point of an unsigned decimal text; empty where there
/// is no point.
pub open spec fn fraction_part(body: Seq<u8>) -> Seq<u8> {
    if index_of(body, POINT) < body.len() {
        body.skip(index_of(body, POINT) + 1)
    } else {
        Seq::empty()
    }
}

/// The magnitude in tenths of an unsigned decimal text, where it is well
/// formed and in range.
pub open spec fn magnitude_spec(body: Seq<u8>) -> Option<nat> {
    let whole = whole_part(body);
    let frac = fraction_part(body);
    if all_digits(whole) && all_digits(frac) && whole.len() + frac.len() > 0 && tenths_of(
        whole,
        frac,
    ) <= VALUE_LIMIT {
        Some(tenths_of(whole, frac))
    } else {
        None
    }
}

/// Whether a text starts with a sign.
pub open spec fn has_sign(text: Seq<u8>) -> bool {
    text.len() > 0 && (text[0] == MINUS || text[0] == PLUS)
}

/// The measurement in tenths that a decimal text denotes, where it is well
/// formed and in range.
pub open spec fn decimal_spec(text: Seq<u8>) -> Option<int> {
    let body = if has_sign(text) {
        text.skip(1)
    } else {
        text
    };
    match magnitude_spec(body) {
        Some(m) => Some(
            if has_sign(text) && text[0] == MINUS {
                -(m as int)
            } else {
                m as int
            },
        ),
        None => None,
    }
}

/// Appending a digit multiplies the value by ten and adds the digit.
pub proof fn lemma_digits_value_push(s: Seq<u8>, d: u8)
    ensures
        digits_value(s.push(d)) == digits_value(s) * 10 + (d - ZERO) as nat,
{
    assert(s.push(d).drop_last() =~= s);
}

/// Whether the bytes from `from` up to `to` are all digits.
fn digits_only(text: &[u8], from: usize, to: usize) -> (yes: bool)
    requires
        from <= to <= text.len(),
    ensures
        yes == all_digits(text@.subrange(from as int, to as int)),
{
    let ghost part = text@.subrange(from as int, to as int);
    let mut i: usize = from;
    while i < to
        invariant
            from <= i <= to <= text.len(),
            part == text@.subrange(from as int, to as int),
            forall|j: int| 0 <= j < i - from ==> is_digit(#[trigger] part[j]),
        decreases to - i,
    {
        let b: u8 = text[i];
        if b < ZERO || b > NINE {
            proof {
                assert(part[i - from] == b);
            }
            return false;
        }
        proof {
            assert(part[i - from] == b);
        }
        i = i + 1;
    }
    true
}

/// The value of the digits from `from` up to `to`, held at `WHOLE_CAP` once
/// it reaches that.
fn whole_value(text: &[u8], from: usize, to: usize) -> (value: i64)
    requires
        from <= to <= text.len(),
        all_digits(text@.subrange(from as int, to as int)),
    ensures
        0 <= value <= WHOLE_CAP,
        value < WHOLE_CAP ==> value == digits_value(text@.subrange(from as int, to as int)),
        value == WHOLE_CAP ==> digits_value(text@.subrange(from as int, to as int)) >= WHOLE_CAP,
{
    let ghost part = text@.subrange(from as int, to as int);
    let mut value: i64 = 0;
    let mut i: usize = from;
    proof {
        assert(part.take(0).len() == 0);
    }
    while i < to
        invariant
            from <= i <= to <= text.len(),
            part == text@.subrange(from as int, to as int),
            all_digits(part),
            0 <= value <= WHOLE_CAP,
            value < WHOLE_CAP ==> value == digits_value(part.take(i - from)),
            value == WHOLE_CAP ==> digits_value(part.take(i - from)) >= WHOLE_CAP,
        decreases to - i,
    {
        let b: u8 = text[i];
        proof {
            let k = i - from;
            assert(part[k] == b);
            assert(is_digit(part[k]));
            assert(part.take(k + 1) =~= part.take(k).push(b));
            lemma_digits_value_push(part.take(k), b);
        }
        let digit: i64 = (b - ZERO) as i64;
        let next: i64 = value * 10 + digit;
        if next >= WHOLE_CAP {
            value = WHOLE_CAP;
        } else {
            value = next;
        }
        i = i + 1;
    }
    proof {
        assert(part.take(to - from) =~= part);
    }
    value
}

/// Reads a decimal text as a measurement in tenths. `None` where the text is
/// not a decimal number or the number is out of range.
pub fn parse_decimal(text: &[u8]) -> (out: Option<i64>)
    ensures
        match out {
            Some(v) => decimal_spec(text@) == Some(v as int),
            None => decimal_spec(text@) is None,
        },
{
    let n: usize = text.len();
    let signed: bool = n > 0 && (text[0] == MINUS || text[0] == PLUS);
    let negative: bool = signed && text[0] == MINUS;
    let start: usize = if signed {
        1
    } else {
        0
    };
    let point: usize = find_byte(text, start, POINT);
    let frac_start: usize = if point < n {
        point + 1
    } else {
        n
    };
    let ghost body = text@.skip(start as int);
    let ghost whole = whole_part(body);
    let ghost frac = fraction_part(body);
    proof {
        assert(body == if has_sign(text@) {
            text@.skip(1)
        } else {
            text@
        }) by {
            assert(text@.skip(0) =~= text@);
        }
        lemma_index_of_first(body, POINT);
        assert(whole =~= text@.subrange(start as int, point as int));
        assert(frac =~= text@.subrange(frac_start as int, n as int));
    }
    if !digits_only(text, start, point) {
        return None;
    }
    if !digits_only(text, frac_start, n) {
        return None;
    }
    if point - start + (n - frac_start) == 0 {
        return None;
    }
    let units: i64 = whole_value(text, start, point);
    if units >= WHOLE_CAP {
        return None;
    }
    let mut tenths: i64 = units * 10;
    if frac_start < n {
        proof {
            assert(frac[0] == text@[frac_start as int]);
            assert(is_digit(frac[0]));
        }
        tenths = tenths + (text[frac_start] - ZERO) as i64;
        if n - frac_start > 1 {
            proof {
                assert(frac[1] == text@[frac_start + 1]);
            }
            if text[frac_start + 1] >= FIVE {
                tenths = tenths + 1;
            }
        }
    }
    assert(tenths == tenths_of(whole, frac));
    if tenths > VALUE_LIMIT {
        return None;
    }
    if negative {
        Some(-tenths)
    } else {
        Some(tenths)
    }
}

/// The digits that write a natural number, without leading zeros.
pub open spec fn digits_of(n: nat) -> Seq<u8>
    decreases n,
{
    if n < 10 {
        seq![(ZERO + n) as u8]
    } else {
        digits_of(n / 10).push((ZERO + n % 10) as u8)
    }
}

/// The magnitude of a measurement.
pub open spec fn magnitude(v: int) -> nat {
    if v < 0 {
        (-v) as nat
    } else {
        v as nat
    }
}

/// The text of a measurement in tenths: a minus sign where it is negative,
/// the whole part, a point, and one fractional digit.
pub open spec fn decimal_text(v: int) -> Seq<u8> {
    (if v < 0 {
        seq![MINUS]
    } else {
        Seq::<u8>::empty()
    }) + digits_of(magnitude(v) / 10) + seq![POINT, (ZERO + magnitude(v) % 10) as u8]
}

/// The digits written for a number are digits, at least one, and denote the
/// number.
pub proof fn lemma_digits_of_value(n: nat)
    ensures
        digits_of(n).len() >= 1,
        all_digits(digits_of(n)),
        digits_value(digits_of(n)) == n,
    decreases n,
{
    if n < 10 {
        let s = digits_of(n);
        assert(s.drop_last().len() == 0);
        assert(digits_value(s.drop_last()) == 0);
        assert(s.last() == (ZERO + n) as u8);
    } else {
        lemma_digits_of_value(n / 10);
        lemma_digits_value_push(digits_of(n / 10), (ZERO + n % 10) as u8);
    }
}

/// The text written for a measurement within the limit reads back as that
/// measurement.
pub proof fn lemma_decimal_round_trip(v: int)
    requires
        -VALUE_LIMIT <= v <= VALUE_LIMIT,
    ensures
        decimal_spec(decimal_text(v)) == Some(v),
{
    let m = magnitude(v);
    let digits = digits_of(m / 10);
    let last = (ZERO + m % 10) as u8;
    let body = digits + seq![POINT, last];
    let text = decimal_text(v);
    lemma_digits_of_value(m / 10);
    if v < 0 {
        assert(text =~= seq![MINUS] + body);
        assert(text[0] == MINUS);
        assert(text.skip(1) =~= body);
    } else {
        assert(text =~= body);
        assert(text[0] == digits[0]);
        assert(is_digit(digits[0]));
    }
    let at = digits.len() as int;
    assert forall|j: int| 0 <= j < at implies body[j] != POINT by {
        assert(body[j] == digits[j]);
        assert(is_digit(digits[j]));
    }
    assert(body[at] == POINT);
    lemma_index_of_is(body, POINT, at);
    assert(whole_part(body) =~= digits);
    assert(fraction_part(body) =~= seq![last]);
    assert(all_digits(seq![last]));
    assert(tenths_of(digits, seq![last]) == m);
}

/// Appends the digits of `n`.
fn push_digits(out: &mut Vec<u8>, n: u64)
    ensures
        final(out)@ == old(out)@ + digits_of(n as nat),
    decreases n,
{
    if n >= 10 {
        push_digits(out, n / 10);
    }
    let digit: u8 = (n % 10) as u8 + ZERO;
    out.push(digit);
    proof {
        assert(out@ =~= old(out)@ + digits_of(n as nat));
    }
}

/// Appends the text of the measurement `v`, counted in tenths.
pub fn push_decimal(out: &mut Vec<u8>, v: i64)
    ensures
        final(out)@ == old(out)@ + decimal_text(v as int),
{
    let m: u64 = if v < 0 {
        (-(v + 1)) as u64 + 1
    } else {
        v as u64
    };
    if v < 0 {
        out.push(MINUS);
    }
    push_digits(out, m / 10);
    out.push(POINT);
    out.push((m % 10) as u8 + ZERO);
    proof {
        assert(m == magnitude(v as int));
        assert(out@ =~= old(out)@ + decimal_text(v as int));
    }
}

} // verus!

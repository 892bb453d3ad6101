//! Decimal value text as a fixed-point number.
//!
//! A value is an optional sign, one or more digits, and optionally a point
//! followed by any number of digits. It is held as a count of thousandths;
//! fraction digits past the third are dropped.

use vstd::prelude::*;
use vstd::slice::slice_subrange;
use crate::separator::{find_byte, first_index};

verus! {

/// The number of fraction digits that a value keeps.
pub const FRACTION_DIGITS: usize = 3;

/// How many units make one: ten to the power `FRACTION_DIGITS`.
pub const UNITS_PER_ONE: i64 = 1000;

/// The sign of a negative value, `-`.
pub const MINUS: u8 = 45;

/// The sign that a positive value may have, `+`.
pub const PLUS: u8 = 43;

/// The byte between the whole part and the fraction, `.`.
pub const POINT: u8 = 46;

/// The digit `0`.
pub const ZERO: u8 = 48;

/// The digit `9`.
pub const NINE: u8 = 57;

/// Whether `b` is a decimal digit.
pub open spec fn is_digit(b: u8) -> bool {
    ZERO <= b <= NINE
}

/// Whether `s` holds decimal digits only.
pub open spec fn all_digits(s: Seq<u8>) -> bool {
    forall|i: int| 0 <= i < s.len() ==> is_digit(#[trigger] s[i])
}

/// The number that the decimal digits `s` write.
pub open spec fn digits_value(s: Seq<u8>) -> nat
    decreases s.len(),
{
    if s.len() == 0 {
        0
    } else {
        digits_value(s.drop_last()) * 10 + (s.last() - ZERO) as nat
    }
}

/// The first `FRACTION_DIGITS` digits of the fraction `frac`, with a zero
/// wherever `frac` is too short.
pub open spec fn fraction_slots(frac: Seq<u8>) -> Seq<u8> {
    Seq::new(
        FRACTION_DIGITS as nat,
        |j: int|
            if j < frac.len() {
                frac[j]
            } else {
                ZERO
            },
    )
}

/// The value that `text` writes, in thousandths; `None` where `text` is no
/// decimal number or its value has no room in an `i64`.
pub open spec fn value_of(text: Seq<u8>) -> Option<i64> {
    let signed = text.len() > 0 && (text[0] == MINUS || text[0] == PLUS);
    let body = if signed {
        text.skip(1)
    } else {
        text
    };
    let point = first_index(body, POINT) as int;
    let whole = body.take(point);
    let frac = if point < body.len() {
        body.skip(point + 1)
    } else {
        Seq::empty()
    };
    let magnitude = digits_value(whole + fraction_slots(frac));
    if whole.len() > 0 && all_digits(whole) && all_digits(frac) && magnitude <= i64::MAX {
        if text[0] == MINUS {
            Some((-magnitude) as i64)
        } else {
            Some(magnitude as i64)
        }
    } else {
        None
    }
}

/// One more digit multiplies the number by ten and adds the digit.
pub proof fn lemma_digits_step(s: Seq<u8>, i: int)
    requires
        0 <= i < s.len(),
    ensures
        digits_value(s.take(i + 1)) == digits_value(s.take(i)) * 10 + (s[i] - ZERO) as nat,
{
    assert(s.take(i + 1).drop_last() =~= s.take(i));
}

/// The number written by the first digits of `s` is at most the number
/// written by all of them.
pub proof fn lemma_digits_prefix(s: Seq<u8>, i: int)
    requires
        0 <= i <= s.len(),
        all_digits(s),
    ensures
        digits_value(s.take(i)) <= digits_value(s),
    decreases s.len() - i,
{
    if i == s.len() {
        assert(s.take(i) =~= s);
    } else {
        lemma_digits_step(s, i);
        lemma_digits_prefix(s, i + 1);
    }
}

/// Whether every byte of `s` is a decimal digit.
pub fn only_digits(s: &[u8]) -> (yes: bool)
    ensures
        yes == all_digits(s@),
{
    let mut i: usize = 0;
    while i < s.len()
        invariant
            i <= s.len(),
            forall|j: int| 0 <= j < i ==> is_digit(#[trigger] s[j]),
        decreases s.len() - i,
    {
        if s[i] < ZERO || s[i] > NINE {
            return false;
        }
        i += 1;
    }
    true
}

/// Reads decimal value text as a count of thousandths.
pub fn parse_value(text: &[u8]) -> (value: Option<i64>)
    ensures
        value == value_of(text@),
{
    let signed = text.len() > 0 && (text[0] == MINUS || text[0] == PLUS);
    let negative = signed && text[0] == MINUS;
    let body = if signed {
        slice_subrange(text, 1, text.len())
    } else {
        text
    };
    proof {
        if signed {
            assert(body@ =~= text@.skip(1));
        }
        assert(body@.skip(0) =~= body@);
    }
    let point = find_byte(body, 0, POINT);
    let whole = slice_subrange(body, 0, point);
    let frac = if point < body.len() {
        slice_subrange(body, point + 1, body.len())
    } else {
        slice_subrange(body, 0, 0)
    };
    proof {
        assert(whole@ =~= body@.take(point as int));
        if point < body.len() {
            assert(frac@ =~= body@.skip(point + 1));
        } else {
            assert(frac@ =~= Seq::<u8>::empty());
        }
    }
    if whole.len() == 0 || !only_digits(whole) || !only_digits(frac) {
        return None;
    }
    let ghost digits = whole@ + fraction_slots(frac@);
    assert(all_digits(digits));
    let mut magnitude: u64 = 0;
    let mut i: usize = 0;
    while i < whole.len()
        invariant
            i <= whole.len(),
            all_digits(digits),
            all_digits(whole@),
            all_digits(frac@),
            digits == whole@ + fraction_slots(frac@),
            magnitude == digits_value(digits.take(i as int)),
            magnitude <= i64::MAX,
            value_of(text@).is_some() ==> digits_value(digits) <= i64::MAX,
            !value_of(text@).is_some() ==> digits_value(digits) > i64::MAX,
        decreases whole.len() - i,
    {
        let digit: u64 = (whole[i] - ZERO) as u64;
        proof {
            assert(digits[i as int] == whole[i as int]);
            lemma_digits_step(digits, i as int);
            lemma_digits_prefix(digits, i + 1);
        }
        if magnitude > (i64::MAX as u64 - digit) / 10 {
            return None;
        }
        magnitude = magnitude * 10 + digit;
        i += 1;
    }
    let mut j: usize = 0;
    while j < FRACTION_DIGITS
        invariant
            j <= FRACTION_DIGITS,
            all_digits(digits),
            all_digits(whole@),
            all_digits(frac@),
            digits == whole@ + fraction_slots(frac@),
            magnitude == digits_value(digits.take(whole.len() + j)),
            magnitude <= i64::MAX,
            value_of(text@).is_some() ==> digits_value(digits) <= i64::MAX,
            !value_of(text@).is_some() ==> digits_value(digits) > i64::MAX,
        decreases FRACTION_DIGITS - j,
    {
        let digit: u64 = if j < frac.len() {
            (frac[j] - ZERO) as u64
        } else {
            0
        };
        proof {
            assert(digits[whole.len() + j] == fraction_slots(frac@)[j as int]);
            lemma_digits_step(digits, whole.len() + j);
            lemma_digits_prefix(digits, whole.len() + j + 1);
        }
        if magnitude > (i64::MAX as u64 - digit) / 10 {
            return None;
        }
        magnitude = magnitude * 10 + digit;
        j += 1;
    }
    proof {
        assert(digits.take(whole.len() + FRACTION_DIGITS) =~= digits);
    }
    if negative {
        Some(-(magnitude as i64))
    } else {
        Some(magnitude as i64)
    }
}

} // verus!

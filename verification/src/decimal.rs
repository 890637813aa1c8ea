//! Fixed-point decimal text: `[-]digits.digit`, read as a number of tenths.

use crate::error::RecordFault;
use vstd::prelude::*;

verus! {

/// The sign of a negative value, `-`.
pub const MINUS: u8 = 0x2d;

/// The decimal point, `.`.
pub const POINT: u8 = 0x2e;

/// The digit `0`.
pub const ZERO: u8 = 0x30;

/// The digit `9`.
pub const NINE: u8 = 0x39;

/// The size of the least `i64`.
pub const MIN_SIZE: u64 = 9223372036854775808;

/// Up to this integer part, ten times it and one more digit fit in a
/// `u64`; beyond it the tenths fit in no `i64`.
pub const WHOLE_LIMIT: u64 = 1844674407370955160;

/// `b` is a decimal digit.
pub open spec fn is_digit(b: u8) -> bool {
    ZERO <= b <= NINE
}

/// `s` holds decimal digits only.
pub open spec fn all_digits(s: Seq<u8>) -> bool {
    forall|i: int| 0 <= i < s.len() ==> is_digit(#[trigger] s[i])
}

/// The number that a string of decimal digits denotes, most significant
/// digit first. The empty string denotes zero.
pub open spec fn digits_value(s: Seq<u8>) -> nat
    decreases s.len(),
{
    if s.len() == 0 {
        0
    } else {
        (digits_value(s.drop_last()) * 10 + (s.last() - ZERO)) as nat
    }
}

/// The text starts with a minus.
pub open spec fn has_sign(s: Seq<u8>) -> bool {
    s.len() > 0 && s[0] == MINUS
}

/// The text without its sign.
pub open spec fn unsigned_part(s: Seq<u8>) -> Seq<u8> {
    if has_sign(s) {
        s.skip(1)
    } else {
        s
    }
}

/// The digits before the point.
pub open spec fn integer_digits(s: Seq<u8>) -> Seq<u8> {
    unsigned_part(s).take(unsigned_part(s).len() - 2)
}

/// `[-]digits.digit`: an optional minus, one or more digits, a point, one digit.
pub open spec fn well_formed_value(s: Seq<u8>) -> bool {
    let u = unsigned_part(s);
    &&& u.len() >= 3
    &&& u[u.len() - 2] == POINT
    &&& is_digit(u[u.len() - 1])
    &&& all_digits(integer_digits(s))
}

/// The value of a well-formed text, in tenths.
pub open spec fn value_tenths(s: Seq<u8>) -> int {
    let magnitude = digits_value(integer_digits(s)) * 10 + (unsigned_part(s).last() - ZERO);
    if has_sign(s) {
        -magnitude
    } else {
        magnitude
    }
}

/// What parsing a value text gives: its tenths, or the reason it is
/// rejected. A text that does not match the grammar is `InvalidValue`,
/// however large; one that matches is `ValueOutOfRange` where its tenths do
/// not fit in an `i64`.
pub open spec fn parse_value(s: Seq<u8>) -> Result<int, RecordFault> {
    if !well_formed_value(s) {
        Err(RecordFault::InvalidValue)
    } else if value_tenths(s) < i64::MIN || value_tenths(s) > i64::MAX {
        Err(RecordFault::ValueOutOfRange)
    } else {
        Ok(value_tenths(s))
    }
}

/// The value of the digit `b`, if it is one.
fn digit_of(b: u8) -> (d: Option<u8>)
    ensures
        is_digit(b) <==> d is Some,
        d matches Some(v) ==> v == b - ZERO,
{
    if ZERO <= b && b <= NINE {
        Some(b - ZERO)
    } else {
        None
    }
}

/// Parses `[-]digits.digit` into tenths without any general-purpose
/// conversion: `-3.2` gives `-32`.
pub fn fast_parse(s: &[u8]) -> (r: Result<i64, RecordFault>)
    ensures
        match r {
            Ok(v) => parse_value(s@) matches Ok(tenths) && tenths == v,
            Err(f) => parse_value(s@) matches Err(fault) && fault == f,
        },
{
    let n: usize = s.len();
    let negative: bool = n > 0 && s[0] == MINUS;
    let start: usize = if negative { 1 } else { 0 };
    if n - start < 3 {
        return Err(RecordFault::InvalidValue);
    }
    let ghost u = unsigned_part(s@);
    let ghost digits = integer_digits(s@);
    assert(u.len() == n - start);
    assert(forall|j: int| 0 <= j < u.len() ==> u[j] == s@[start + j]);
    if s[n - 2] != POINT {
        return Err(RecordFault::InvalidValue);
    }
    let fraction: u8 = match digit_of(s[n - 1]) {
        Some(d) => d,
        None => {
            return Err(RecordFault::InvalidValue);
        },
    };
    let end: usize = n - 2;
    assert(digits =~= s@.subrange(start as int, end as int));
    let mut acc: u64 = 0;
    let mut fits: bool = true;
    let mut i: usize = start;
    while i < end
        invariant
            start <= i <= end,
            end == n - 2,
            n == s@.len(),
            digits == integer_digits(s@),
            digits == s@.subrange(start as int, end as int),
            all_digits(digits.take(i - start)),
            fits ==> acc == digits_value(digits.take(i - start)),
            fits ==> acc <= WHOLE_LIMIT,
            !fits ==> digits_value(digits.take(i - start)) > WHOLE_LIMIT,
        decreases end - i,
    {
        let ghost before = digits.take(i - start);
        let ghost after = digits.take(i - start + 1);
        assert(after.drop_last() =~= before);
        assert(after.last() == s@[i as int]);
        match digit_of(s[i]) {
            None => {
                assert(!is_digit(digits[i - start]));
                return Err(RecordFault::InvalidValue);
            },
            Some(d) => {
                if fits {
                    acc = acc * 10 + d as u64;
                    if acc > WHOLE_LIMIT {
                        fits = false;
                    }
                }
            },
        }
        i += 1;
    }
    assert(digits.take(end - start) =~= digits);
    if !fits {
        return Err(RecordFault::ValueOutOfRange);
    }
    let magnitude: u64 = acc * 10 + fraction as u64;
    if negative {
        if magnitude > MIN_SIZE {
            Err(RecordFault::ValueOutOfRange)
        } else if magnitude == MIN_SIZE {
            Ok(i64::MIN)
        } else {
            Ok(-(magnitude as i64))
        }
    } else {
        if magnitude >= MIN_SIZE {
            Err(RecordFault::ValueOutOfRange)
        } else {
            Ok(magnitude as i64)
        }
    }
}

/// The decimal digits of `n`, most significant first, without leading
/// zeros; zero is the one digit `0`.
pub open spec fn decimal_text(n: nat) -> Seq<u8>
    decreases n,
{
    if n < 10 {
        seq![(ZERO + n) as u8]
    } else {
        decimal_text(n / 10).push((ZERO + n % 10) as u8)
    }
}

/// The size of `t`.
pub open spec fn magnitude(t: int) -> nat {
    if t < 0 {
        (-t) as nat
    } else {
        t as nat
    }
}

/// A number of tenths written with one fractional digit: `-32` is `-3.2`.
pub open spec fn tenths_text(t: int) -> Seq<u8> {
    let body = decimal_text(magnitude(t) / 10) + seq![POINT, (ZERO + magnitude(t) % 10) as u8];
    if t < 0 {
        seq![MINUS] + body
    } else {
        body
    }
}

/// The digits of a number are digits, at least one, and denote the number.
pub proof fn lemma_decimal_text(n: nat)
    ensures
        decimal_text(n).len() >= 1,
        all_digits(decimal_text(n)),
        digits_value(decimal_text(n)) == n,
    decreases n,
{
    if n < 10 {
        let s = decimal_text(n);
        assert(s.drop_last() =~= Seq::<u8>::empty());
        assert(digits_value(s.drop_last()) == 0);
    } else {
        lemma_decimal_text(n / 10);
        let s = decimal_text(n);
        assert(s.drop_last() =~= decimal_text(n / 10));
    }
}

/// What is written is read back: the text of a number of tenths is
/// well-formed and parses to that number.
pub proof fn lemma_text_round_trip(t: int)
    ensures
        well_formed_value(tenths_text(t)),
        value_tenths(tenths_text(t)) == t,
        i64::MIN <= t <= i64::MAX ==> parse_value(tenths_text(t)) == Ok::<int, RecordFault>(t),
{
    let m = magnitude(t);
    let whole = decimal_text(m / 10);
    let body = whole + seq![POINT, (ZERO + m % 10) as u8];
    let text = tenths_text(t);
    lemma_decimal_text(m / 10);
    assert(whole[0] != MINUS);
    assert(body[0] == whole[0]);
    if t < 0 {
        assert(text.skip(1) =~= body);
    }
    assert(unsigned_part(text) =~= body);
    assert(integer_digits(text) =~= whole);
    assert(body[body.len() - 2] == POINT);
    assert(body.last() == (ZERO + m % 10) as u8);
}

/// Appends the decimal digits of `n`.
fn push_decimal(out: &mut Vec<u8>, n: u64)
    ensures
        final(out)@ == old(out)@ + decimal_text(n as nat),
    decreases n,
{
    if n >= 10 {
        push_decimal(out, n / 10);
    }
    out.push(ZERO + (n % 10) as u8);
    proof {
        assert(out@ =~= old(out)@ + decimal_text(n as nat));
    }
}

/// Appends `t` tenths, written with one fractional digit.
pub fn push_tenths(out: &mut Vec<u8>, t: i64)
    ensures
        final(out)@ == old(out)@ + tenths_text(t as int),
{
    let size: u64 = if t >= 0 {
        t as u64
    } else if t == i64::MIN {
        MIN_SIZE
    } else {
        (-t) as u64
    };
    if t < 0 {
        out.push(MINUS);
    }
    push_decimal(out, size / 10);
    out.push(POINT);
    out.push(ZERO + (size % 10) as u8);
    proof {
        assert(size == magnitude(t as int));
        assert(out@ =~= old(out)@ + tenths_text(t as int));
    }
}

} // verus!

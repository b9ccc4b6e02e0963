//! Decimal integers on the wire: reading a signed length or count field, and
//! writing an unsigned length.

use vstd::prelude::*;
use vstd::utf8::*;
use crate::error::RESPError;
use crate::text::lemma_ascii_is_utf8;

verus! {

/// The ASCII code of `0`.
pub const DIGIT_ZERO: u8 = 48;

/// The ASCII code of `-`.
pub const MINUS: u8 = 45;

/// `b` is one of the ASCII digits `0` to `9`.
pub open spec fn is_digit(b: u8) -> bool {
    DIGIT_ZERO <= b <= DIGIT_ZERO + 9
}

/// Every byte of `s` is an ASCII digit.
pub open spec fn all_digits(s: Seq<u8>) -> bool {
    forall|i: int| 0 <= i < s.len() ==> is_digit(#[trigger] s[i])
}

/// The number that a run of ASCII digits writes in base ten.
pub open spec fn digits_value(s: Seq<u8>) -> nat
    decreases s.len(),
{
    if s.len() == 0 {
        0
    } else {
        10 * digits_value(s.drop_last()) + (s.last() - DIGIT_ZERO) as nat
    }
}

/// The integer that `s` writes, if `s` is a decimal numeral: an optional
/// minus sign and then at least one digit, with nothing before, between or
/// after.  A plus sign is not part of a numeral.
pub open spec fn decimal_value(s: Seq<u8>) -> Option<int> {
    if s.len() > 0 && s[0] == MINUS {
        let digits = s.subrange(1, s.len() as int);
        if digits.len() > 0 && all_digits(digits) {
            Some(-(digits_value(digits) as int))
        } else {
            None
        }
    } else if s.len() > 0 && all_digits(s) {
        Some(digits_value(s) as int)
    } else {
        None
    }
}

/// What reading `s` as a length or count field gives: bytes that are not text
/// are an encoding error; text that is no numeral, or whose number does not
/// fit a signed 64-bit integer, is a parse error.
pub open spec fn parse_integer_spec(s: Seq<u8>) -> Result<i64, RESPError> {
    if !valid_utf8(s) {
        Err(RESPError::IntegerParseEncodingError)
    } else {
        match decimal_value(s) {
            Some(v) => if i64::MIN <= v <= i64::MAX {
                Ok(v as i64)
            } else {
                Err(RESPError::IntegerParseError)
            },
            None => Err(RESPError::IntegerParseError),
        }
    }
}

/// A run of digits is worth at least as much as any run it extends.
pub proof fn lemma_digits_value_grows(s: Seq<u8>, k: int)
    requires
        0 <= k <= s.len(),
    ensures
        digits_value(s.subrange(0, k)) <= digits_value(s),
    decreases s.len() - k,
{
    if k == s.len() {
        assert(s.subrange(0, k) =~= s);
    } else {
        lemma_digits_value_grows(s.drop_last(), k);
        assert(s.drop_last().subrange(0, k) =~= s.subrange(0, k));
    }
}

/// Reads a length or count field: the bytes as UTF-8 text, the text as a
/// signed decimal integer.
pub fn parse_integer(slice: &[u8]) -> (r: Result<i64, RESPError>)
    ensures
        r == parse_integer_spec(slice@),
{
    if core::str::from_utf8(slice).is_err() {
        return Err(RESPError::IntegerParseEncodingError);
    }
    let negative: bool = slice.len() > 0 && slice[0] == MINUS;
    let first: usize = if negative { 1 } else { 0 };
    if slice.len() == first {
        return Err(RESPError::IntegerParseError);
    }
    let limit: u64 = if negative { 9223372036854775808 } else { 9223372036854775807 };
    let ghost digits = slice@.subrange(first as int, slice@.len() as int);
    let mut acc: u64 = 0;
    let mut i: usize = first;
    while i < slice.len()
        invariant
            valid_utf8(slice@),
            negative == (slice@.len() > 0 && slice@[0] == MINUS),
            first == if negative { 1usize } else { 0usize },
            limit == if negative { i64::MAX + 1 } else { i64::MAX as int },
            first <= i <= slice.len(),
            digits == slice@.subrange(first as int, slice@.len() as int),
            all_digits(digits.subrange(0, i - first)),
            acc == digits_value(digits.subrange(0, i - first)),
            acc <= limit,
        decreases slice.len() - i,
    {
        let b: u8 = slice[i];
        if b < DIGIT_ZERO || b > DIGIT_ZERO + 9 {
            assert(!is_digit(digits[i - first]));
            assert(!negative ==> digits =~= slice@);
            return Err(RESPError::IntegerParseError);
        }
        let d: u64 = (b - DIGIT_ZERO) as u64;
        let ghost taken = digits.subrange(0, i - first + 1);
        proof {
            assert(taken.drop_last() =~= digits.subrange(0, i - first));
            assert(taken.last() == b);
            assert(digits_value(taken) == 10 * acc + d);
            lemma_digits_value_grows(digits, i - first + 1);
            assert(!negative ==> digits =~= slice@);
        }
        if acc > (limit - d) / 10 {
            return Err(RESPError::IntegerParseError);
        }
        acc = acc * 10 + d;
        i = i + 1;
        proof {
            assert forall|j: int| 0 <= j < taken.len() implies is_digit(#[trigger] taken[j]) by {
                if j < taken.len() - 1 {
                    assert(taken[j] == digits.subrange(0, taken.len() - 1)[j]);
                }
            }
        }
    }
    proof {
        assert(digits.subrange(0, i - first) =~= digits);
        assert(!negative ==> digits =~= slice@);
    }
    if negative {
        if acc == 9223372036854775808 {
            Ok(i64::MIN)
        } else {
            Ok(-(acc as i64))
        }
    } else {
        Ok(acc as i64)
    }
}

/// The shortest run of ASCII digits that writes `n` in base ten.
pub open spec fn decimal_digits(n: nat) -> Seq<u8>
    decreases n,
{
    if n < 10 {
        seq![(DIGIT_ZERO + n) as u8]
    } else {
        decimal_digits(n / 10).push((DIGIT_ZERO + n % 10) as u8)
    }
}

/// What `decimal_digits` writes is a numeral, and reads back as the number
/// it was written from.
pub proof fn lemma_decimal_digits_read_back(n: nat)
    ensures
        decimal_digits(n).len() > 0,
        all_digits(decimal_digits(n)),
        digits_value(decimal_digits(n)) == n,
    decreases n,
{
    let s = decimal_digits(n);
    if n < 10 {
        assert(s.drop_last() =~= Seq::<u8>::empty());
        assert(digits_value(s.drop_last()) == 0);
    } else {
        lemma_decimal_digits_read_back(n / 10);
        assert(s.drop_last() =~= decimal_digits(n / 10));
    }
}

/// A length that fits a signed 64-bit integer, written in decimal and read
/// as a length field, is that length again.
pub proof fn lemma_parse_integer_of_decimal(n: nat)
    requires
        n <= i64::MAX,
    ensures
        parse_integer_spec(decimal_digits(n)) == Ok::<i64, RESPError>(n as i64),
{
    let digits = decimal_digits(n);
    lemma_decimal_digits_read_back(n);
    assert(is_digit(digits[0]));
    assert forall|i: int| 0 <= i < digits.len() implies #[trigger] digits[i] < 128 by {
        assert(is_digit(digits[i]));
    }
    lemma_ascii_is_utf8(digits);
}

/// Appends the decimal numeral of `n` to `out`.
pub fn push_decimal(out: &mut Vec<u8>, n: usize)
    ensures
        final(out)@ == old(out)@ + decimal_digits(n as nat),
    decreases n,
{
    if n >= 10 {
        push_decimal(out, n / 10);
    }
    out.push(DIGIT_ZERO + (n % 10) as u8);
}

} // verus!

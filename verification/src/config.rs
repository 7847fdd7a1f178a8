//! Reading of durations given on the command line.

use vstd::prelude::*;
use vstd::string::StringSliceAdditionalSpecFns;

verus! {

/// Why a text is no number of seconds.
#[derive(Clone, Copy, Debug, PartialEq, Eq, Structural)]
pub enum ParseError {
    /// The text is empty.
    Empty,
    /// The text holds something else than decimal digits after an optional
    /// plus sign, or no digit at all.
    InvalidDigit,
    /// The number does not fit in 64 bits.
    PosOverflow,
}

/// The byte is a decimal digit.
pub open spec fn is_digit(b: u8) -> bool {
    48 <= b <= 57
}

/// The number that the digits stand for, read from the left, or the first
/// thing that is wrong with them: a byte that is no digit, or a digit that
/// takes the number beyond 64 bits.
pub open spec fn spec_decimal(digits: Seq<u8>) -> Result<int, ParseError>
    decreases digits.len(),
{
    if digits.len() == 0 {
        Ok(0)
    } else {
        match spec_decimal(digits.drop_last()) {
            Err(e) => Err(e),
            Ok(value) => if !is_digit(digits.last()) {
                Err(ParseError::InvalidDigit)
            } else if value * 10 + (digits.last() - 48) > u64::MAX {
                Err(ParseError::PosOverflow)
            } else {
                Ok(value * 10 + (digits.last() - 48))
            },
        }
    }
}

/// The number of seconds that a text stands for: decimal digits, with an
/// optional plus sign in front.
pub open spec fn spec_seconds(text: Seq<u8>) -> Result<int, ParseError> {
    if text.len() == 0 {
        Err(ParseError::Empty)
    } else {
        let digits = if text[0] == 43 {
            text.skip(1)
        } else {
            text
        };
        if digits.len() == 0 {
            Err(ParseError::InvalidDigit)
        } else {
            spec_decimal(digits)
        }
    }
}

/// Reads a duration given as a whole number of seconds.
pub fn parse_duration_seconds(input: &str) -> (r: Result<u64, ParseError>)
    ensures
        match r {
            Ok(seconds) => spec_seconds(input.spec_bytes()) == Ok::<int, ParseError>(seconds as int),
            Err(e) => spec_seconds(input.spec_bytes()) == Err::<int, ParseError>(e),
        },
{
    let text = input.as_bytes();
    if text.len() == 0 {
        return Err(ParseError::Empty);
    }
    let start: usize = if text[0] == 43 {
        1
    } else {
        0
    };
    if start == text.len() {
        return Err(ParseError::InvalidDigit);
    }
    let ghost digits = text@.skip(start as int);
    let mut value: u64 = 0;
    let mut i: usize = start;
    assert(digits.take(0) =~= Seq::<u8>::empty());
    while i < text.len()
        invariant
            start <= i <= text@.len(),
            start < text@.len(),
            text@ == input.spec_bytes(),
            start == if text@[0] == 43 {
                1int
            } else {
                0int
            },
            digits == text@.skip(start as int),
            spec_decimal(digits.take(i - start)) == Ok::<int, ParseError>(value as int),
        decreases text@.len() - i,
    {
        let b: u8 = text[i];
        proof {
            assert(text@.skip(0) =~= text@);
            assert(digits.take(i + 1 - start).drop_last() =~= digits.take(i - start));
            assert(digits.take(i + 1 - start).last() == b);
            lemma_failure_stays(digits, i + 1 - start);
        }
        if b < 48 || b > 57 {
            return Err(ParseError::InvalidDigit);
        }
        let digit: u64 = (b - 48) as u64;
        if value > (u64::MAX - digit) / 10 {
            return Err(ParseError::PosOverflow);
        }
        value = value * 10 + digit;
        i += 1;
    }
    assert(digits.take(digits.len() as int) =~= digits);
    assert(text@.skip(0) =~= text@);
    Ok(value)
}

/// What is wrong with the first digits of a number is wrong with the number.
pub proof fn lemma_failure_stays(digits: Seq<u8>, n: int)
    requires
        0 <= n <= digits.len(),
    ensures
        spec_decimal(digits.take(n)) is Err ==> spec_decimal(digits) == spec_decimal(
            digits.take(n),
        ),
    decreases digits.len() - n,
{
    if n == digits.len() {
        assert(digits.take(n) =~= digits);
    } else {
        lemma_failure_stays(digits, n + 1);
        assert(digits.take(n + 1).drop_last() =~= digits.take(n));
    }
}

} // verus!

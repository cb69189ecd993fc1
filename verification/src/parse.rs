//! Reading unsigned numbers from text.
//!
//! A number is an optional plus sign followed by at least one digit of the
//! radix. Letters count as digits from ten upwards in either case. A number
//! that does not fit the target type is no number.

use vstd::prelude::*;
use vstd::slice::slice_subrange;
use vstd::string::*;

verus! {

/// The value of a character as a digit, if it is one: `0`-`9`, then `a`-`f`
/// or `A`-`F` for ten to fifteen.
pub open spec fn digit_value(byte: u8) -> Option<nat> {
    if 0x30 <= byte <= 0x39 {
        Some((byte - 0x30) as nat)
    } else if 0x61 <= byte <= 0x66 {
        Some((byte - 0x61 + 10) as nat)
    } else if 0x41 <= byte <= 0x46 {
        Some((byte - 0x41 + 10) as nat)
    } else {
        None
    }
}

/// Whether a character is a digit of the radix.
pub open spec fn is_digit(byte: u8, radix: nat) -> bool {
    digit_value(byte) matches Some(d) && d < radix
}

/// Whether every character of the text is a digit of the radix.
pub open spec fn all_digits(text: Seq<u8>, radix: nat) -> bool {
    forall|i: int| 0 <= i < text.len() ==> is_digit(#[trigger] text[i], radix)
}

/// The number that a run of digits spells in the radix, most significant
/// digit first.
pub open spec fn digits_value(text: Seq<u8>, radix: nat) -> nat
    decreases text.len(),
{
    if text.len() == 0 {
        0
    } else {
        digits_value(text.drop_last(), radix) * radix + digit_value(text.last()).unwrap()
    }
}

/// The text without a leading plus sign.
pub open spec fn without_sign(text: Seq<u8>) -> Seq<u8> {
    if text.len() > 0 && text[0] == 0x2b {
        text.skip(1)
    } else {
        text
    }
}

/// The number that a text spells in the radix, if it spells one.
pub open spec fn unsigned_value(text: Seq<u8>, radix: nat) -> Option<nat> {
    let digits = without_sign(text);
    if digits.len() > 0 && all_digits(digits, radix) {
        Some(digits_value(digits, radix))
    } else {
        None
    }
}

/// The 64-bit number that a text spells in the radix, if it spells one that
/// fits.
pub open spec fn u64_value(text: Seq<u8>, radix: nat) -> Option<u64> {
    match unsigned_value(text, radix) {
        Some(value) => if value <= u64::MAX {
            Some(value as u64)
        } else {
            None
        },
        None => None,
    }
}

/// The offset that a text spells: hexadecimal after a leading `0x`, decimal
/// otherwise.
pub open spec fn offset_value(text: Seq<u8>) -> Option<u64> {
    if text.len() >= 2 && text[0] == 0x30 && text[1] == 0x78 {
        u64_value(text.skip(2), 16)
    } else {
        u64_value(text, 10)
    }
}

/// The count that a text spells in decimal, if it spells one that fits a
/// `usize`.
pub open spec fn repeat_value(text: Seq<u8>) -> Option<usize> {
    match u64_value(text, 10) {
        Some(value) => if value <= usize::MAX {
            Some(value as usize)
        } else {
            None
        },
        None => None,
    }
}

/// A run of digits spells at least as much as any of its beginnings.
proof fn lemma_digits_value_grows(text: Seq<u8>, radix: nat, shorter: int)
    requires
        radix >= 1,
        0 <= shorter <= text.len(),
    ensures
        digits_value(text.take(shorter), radix) <= digits_value(text, radix),
    decreases text.len(),
{
    if shorter == text.len() {
        assert(text.take(shorter) =~= text);
    } else {
        lemma_digits_value_grows(text.drop_last(), radix, shorter);
        assert(text.drop_last().take(shorter) =~= text.take(shorter));
        let rest = digits_value(text.drop_last(), radix);
        assert(rest <= rest * radix) by (nonlinear_arith)
            requires
                radix >= 1,
                rest >= 0,
        ;
    }
}

/// Two hexadecimal digits at most spell a number below 256.
pub proof fn lemma_two_digits_fit_a_byte(text: Seq<u8>)
    requires
        text.len() <= 2,
        all_digits(text, 16),
    ensures
        digits_value(text, 16) <= 255,
{
    reveal_with_fuel(digits_value, 3);
    if text.len() == 2 {
        assert(is_digit(text[0], 16));
        assert(is_digit(text[1], 16));
        assert(text.drop_last().last() == text[0]);
    } else if text.len() == 1 {
        assert(is_digit(text[0], 16));
    }
}

/// Reads a character as a digit.
fn digit_of(byte: u8) -> (digit: Option<u64>)
    ensures
        match digit {
            Some(d) => digit_value(byte) == Some(d as nat),
            None => digit_value(byte).is_none(),
        },
{
    if 0x30 <= byte && byte <= 0x39 {
        Some((byte - 0x30) as u64)
    } else if 0x61 <= byte && byte <= 0x66 {
        Some((byte - 0x61 + 10) as u64)
    } else if 0x41 <= byte && byte <= 0x46 {
        Some((byte - 0x41 + 10) as u64)
    } else {
        None
    }
}

/// Reads a 64-bit unsigned number written in `radix`.
///
/// The answer is the number exactly when the text is an optional plus sign
/// and then one or more digits of the radix, and the number they spell fits 64
/// bits. Leading zeros are digits like any other.
pub fn parse_unsigned(text: &[u8], radix: u64) -> (value: Option<u64>)
    requires
        2 <= radix <= 16,
    ensures
        value == u64_value(text@, radix as nat),
{
    let start: usize = if text.len() > 0 && text[0] == 0x2b {
        1
    } else {
        0
    };
    let ghost digits = without_sign(text@);
    assert(digits =~= text@.skip(start as int));
    if start == text.len() {
        return None;
    }
    let mut value: u64 = 0;
    let mut i: usize = start;
    assert(digits.take(0) =~= Seq::<u8>::empty());
    while i < text.len()
        invariant
            2 <= radix <= 16,
            start <= i <= text.len(),
            digits == text@.skip(start as int),
            digits == without_sign(text@),
            digits.len() > 0,
            all_digits(digits.take(i - start), radix as nat),
            value == digits_value(digits.take(i - start), radix as nat),
        decreases text.len() - i,
    {
        let ghost seen = digits.take(i - start);
        let ghost next = digits.take(i + 1 - start);
        proof {
            assert(next.drop_last() =~= seen);
            assert(next.last() == text@[i as int]);
            lemma_digits_value_grows(digits, radix as nat, i + 1 - start);
        }
        let digit = match digit_of(text[i]) {
            Some(d) => d,
            None => {
                assert(!is_digit(digits[i - start], radix as nat));
                return None;
            },
        };
        if digit >= radix {
            assert(!is_digit(digits[i - start], radix as nat));
            return None;
        }
        assert(digits_value(next, radix as nat) == value * radix + digit);
        let scaled = match value.checked_mul(radix) {
            Some(scaled) => scaled,
            None => {
                return None;
            },
        };
        value = match scaled.checked_add(digit) {
            Some(sum) => sum,
            None => {
                return None;
            },
        };
        i += 1;
        proof {
            assert forall|j: int| 0 <= j < next.len() implies is_digit(
                #[trigger] next[j],
                radix as nat,
            ) by {
                if j < seen.len() {
                    assert(next[j] == seen[j]);
                }
            }
        }
    }
    assert(digits.take(i - start) =~= digits);
    Some(value)
}

/// Reads a byte offset: hexadecimal after a leading `0x`, decimal otherwise.
///
/// The prefix is the two characters `0x` exactly; what follows it, or the
/// whole text without it, is read as [`parse_unsigned`] reads a number.
pub fn parse_offset(s: &str) -> (offset: Option<u64>)
    ensures
        offset == offset_value(s.spec_bytes()),
{
    let text = s.as_bytes();
    if text.len() >= 2 && text[0] == 0x30 && text[1] == 0x78 {
        let rest = slice_subrange(text, 2, text.len());
        assert(rest@ =~= text@.skip(2));
        parse_unsigned(rest, 16)
    } else {
        parse_unsigned(text, 10)
    }
}

/// Reads a repeat count: a decimal number that fits a `usize`.
pub fn parse_repeat(value: &str) -> (count: Option<usize>)
    ensures
        count == repeat_value(value.spec_bytes()),
{
    match parse_unsigned(value.as_bytes(), 10) {
        Some(number) => if number <= usize::MAX as u64 {
            Some(number as usize)
        } else {
            None
        },
        None => None,
    }
}

} // verus!

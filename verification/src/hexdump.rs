//! Bytes as hexadecimal text and back.

use crate::parse::{lemma_two_digits_fit_a_byte, parse_unsigned, u64_value, without_sign};
use vstd::prelude::*;
use vstd::slice::slice_subrange;
use vstd::string::*;

verus! {

/// Whether a byte shows as itself on a console: a space or a visible ASCII
/// character.
pub open spec fn is_printable_byte(byte: u8) -> bool {
    0x20 <= byte <= 0x7e
}

/// The byte that two characters spell in hexadecimal, if they spell one. The
/// two are read as a number is read, so a plus sign and one digit count too.
pub open spec fn hex_pair(high: u8, low: u8) -> Option<u8> {
    match u64_value(seq![high, low], 16) {
        Some(value) => Some(value as u8),
        None => None,
    }
}

/// The byte spelled by the pair of characters number `k` of a text.
pub open spec fn pair_at(text: Seq<u8>, k: int) -> Option<u8> {
    hex_pair(text[2 * k], text[2 * k + 1])
}

/// Whether a text is a run of hexadecimal pairs.
pub open spec fn hex_text_valid(text: Seq<u8>) -> bool {
    &&& text.len() % 2 == 0
    &&& forall|k: int| 0 <= k < text.len() / 2 ==> (#[trigger] pair_at(text, k)).is_some()
}

/// The bytes that a run of hexadecimal pairs spells.
pub open spec fn hex_text_bytes(text: Seq<u8>) -> Seq<u8> {
    Seq::new(text.len() / 2, |k: int| pair_at(text, k).unwrap())
}

/// The lower-case hexadecimal digit for a value below sixteen.
pub open spec fn hex_digit(value: nat) -> u8 {
    if value < 10 {
        (0x30 + value) as u8
    } else {
        (0x61 + value - 10) as u8
    }
}

/// A number in lower-case hexadecimal, padded with zeros on the left to at
/// least `width` digits.
pub open spec fn hex_digits(value: nat, width: nat) -> Seq<u8>
    decreases value, width,
{
    if value < 16 && width <= 1 {
        seq![hex_digit(value)]
    } else {
        let narrower = if width > 0 {
            (width - 1) as nat
        } else {
            0
        };
        hex_digits(value / 16, narrower).push(hex_digit(value % 16))
    }
}

/// The first `count` columns of a dump: two digits and a space for each byte
/// there is, two dots and a space for each byte there is not.
pub open spec fn hex_columns(buf: Seq<u8>, count: nat) -> Seq<u8>
    decreases count,
{
    if count == 0 {
        Seq::<u8>::empty()
    } else {
        hex_columns(buf, (count - 1) as nat) + hex_column(buf, count - 1)
    }
}

/// One column of a dump.
pub open spec fn hex_column(buf: Seq<u8>, index: int) -> Seq<u8> {
    if index < buf.len() {
        hex_digits(buf[index] as nat, 2).push(0x20u8)
    } else {
        seq![0x2eu8, 0x2eu8, 0x20u8]
    }
}

/// The readable side of a dump: each byte as itself where it is printable,
/// as a dot where it is not.
pub open spec fn text_column(buf: Seq<u8>) -> Seq<u8> {
    Seq::new(
        buf.len(),
        |i: int|
            if is_printable_byte(buf[i]) {
                buf[i]
            } else {
                0x2eu8
            },
    )
}

/// One line of a dump: the offset in at least eight digits, a colon, sixteen
/// columns for the first sixteen bytes, and every byte once more as text
/// between two bars.
pub open spec fn hexdump_line(offset: u64, buf: Seq<u8>) -> Seq<u8> {
    hex_digits(offset as nat, 8) + seq![0x3au8, 0x20u8] + hex_columns(buf, 16) + seq![
        0x20u8,
        0x7cu8,
    ] + text_column(buf) + seq![0x7cu8]
}

/// Whether every byte of a buffer is a space or a visible ASCII character.
pub fn is_printable(buf: &[u8]) -> (printable: bool)
    ensures
        printable == forall|i: int| 0 <= i < buf@.len() ==> is_printable_byte(#[trigger] buf@[i]),
{
    let mut i: usize = 0;
    while i < buf.len()
        invariant
            i <= buf.len(),
            forall|j: int| 0 <= j < i ==> is_printable_byte(#[trigger] buf@[j]),
        decreases buf.len() - i,
    {
        let byte = buf[i];
        if byte < 0x20 || byte > 0x7e {
            assert(!is_printable_byte(buf@[i as int]));
            return false;
        }
        i += 1;
    }
    true
}

/// Reads a text of hexadecimal pairs as the bytes it spells.
///
/// The answer is `None` when the text has an odd number of bytes or holds a
/// pair that spells no byte.
pub fn hex_to_bytes(hex: &str) -> (bytes: Option<Vec<u8>>)
    ensures
        bytes.is_some() <==> hex_text_valid(hex.spec_bytes()),
        bytes matches Some(out) ==> out@ == hex_text_bytes(hex.spec_bytes()),
{
    let text = hex.as_bytes();
    if text.len() % 2 != 0 {
        return None;
    }
    let mut out: Vec<u8> = Vec::new();
    let mut i: usize = 0;
    while i < text.len()
        invariant
            text@ == hex.spec_bytes(),
            text@.len() % 2 == 0,
            i <= text.len(),
            i % 2 == 0,
            out@.len() == i / 2,
            forall|k: int| 0 <= k < i / 2 ==> #[trigger] pair_at(text@, k) == Some(out@[k]),
        decreases text.len() - i,
    {
        let pair = slice_subrange(text, i, i + 2);
        let ghost k = (i / 2) as int;
        assert(pair@ =~= seq![text@[2 * k], text@[2 * k + 1]]);
        match parse_unsigned(pair, 16) {
            Some(value) => {
                proof {
                    lemma_two_digits_fit_a_byte(without_sign(pair@));
                }
                out.push(value as u8);
            },
            None => {
                assert(pair_at(text@, k).is_none());
                return None;
            },
        }
        i += 2;
    }
    assert(out@ =~= hex_text_bytes(text@));
    Some(out)
}

/// The lower-case hexadecimal digit for a value below sixteen.
fn hex_digit_of(value: u8) -> (digit: u8)
    requires
        value < 16,
    ensures
        digit == hex_digit(value as nat),
{
    if value < 10 {
        0x30 + value
    } else {
        0x61 + value - 10
    }
}

/// Appends a number in lower-case hexadecimal, padded with zeros on the left
/// to at least `width` digits.
fn push_hex(out: &mut Vec<u8>, value: u64, width: usize)
    ensures
        final(out)@ == old(out)@ + hex_digits(value as nat, width as nat),
{
    let start = out.len();
    let mut rest: u64 = value;
    let mut left: usize = width;
    let ghost before = out@;
    let ghost mut tail = Seq::<u8>::empty();
    while !(rest < 16 && left <= 1)
        invariant
            start == before.len(),
            out@ == before + tail,
            hex_digits(value as nat, width as nat) == hex_digits(rest as nat, left as nat) + tail,
        decreases rest, left,
    {
        let digit = hex_digit_of((rest % 16) as u8);
        out.insert(start, digit);
        let narrower = if left > 0 {
            left - 1
        } else {
            0
        };
        proof {
            let longer = seq![digit] + tail;
            assert(out@ =~= before + longer);
            assert(hex_digits(rest as nat, left as nat) + tail =~= hex_digits(
                (rest / 16) as nat,
                narrower as nat,
            ) + longer);
            tail = longer;
        }
        rest = rest / 16;
        left = narrower;
    }
    let digit = hex_digit_of(rest as u8);
    out.insert(start, digit);
    proof {
        assert(out@ =~= before + (seq![digit] + tail));
        assert(hex_digits(rest as nat, left as nat) + tail =~= seq![digit] + tail);
    }
}

/// Lays out one line of a dump of `buf`, found at `offset` of its source.
///
/// The line carries no newline. All of `buf` shows in the text between the
/// bars, while the columns before it have room for sixteen bytes.
pub fn hexdump(offset: u64, buf: &[u8]) -> (line: Vec<u8>)
    ensures
        line@ == hexdump_line(offset, buf@),
{
    let mut line: Vec<u8> = Vec::new();
    push_hex(&mut line, offset, 8);
    line.push(0x3a);
    line.push(0x20);
    let ghost head = hex_digits(offset as nat, 8) + seq![0x3au8, 0x20u8];
    assert(line@ =~= head);
    let mut column: usize = 0;
    while column < 16
        invariant
            column <= 16,
            line@ == head + hex_columns(buf@, column as nat),
        decreases 16 - column,
    {
        let ghost so_far = line@;
        if column < buf.len() {
            push_hex(&mut line, buf[column] as u64, 2);
            line.push(0x20);
        } else {
            line.push(0x2e);
            line.push(0x2e);
            line.push(0x20);
        }
        assert(line@ =~= so_far + hex_column(buf@, column as int));
        column += 1;
        assert(line@ =~= head + hex_columns(buf@, column as nat));
    }
    line.push(0x20);
    line.push(0x7c);
    let ghost left_side = head + hex_columns(buf@, 16) + seq![0x20u8, 0x7cu8];
    assert(line@ =~= left_side);
    let mut i: usize = 0;
    while i < buf.len()
        invariant
            i <= buf.len(),
            line@ == left_side + text_column(buf@).take(i as int),
        decreases buf.len() - i,
    {
        let byte = buf[i];
        let shown = if 0x20 <= byte && byte <= 0x7e {
            byte
        } else {
            0x2e
        };
        line.push(shown);
        assert(text_column(buf@).take(i + 1) =~= text_column(buf@).take(i as int).push(shown));
        i += 1;
    }
    assert(text_column(buf@).take(i as int) =~= text_column(buf@));
    line.push(0x7c);
    assert(line@ =~= hexdump_line(offset, buf@));
    line
}

} // verus!

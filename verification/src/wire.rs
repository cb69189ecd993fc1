//! The wire form of a public value: eight bytes, most significant first.

use vstd::prelude::*;

verus! {

/// The number of bytes a public value takes on the wire.
pub const PUBLIC_KEY_LEN: usize = 8;

/// The eight-byte big-endian form of a word: byte `i` holds the digit of
/// weight `256^(7 - i)`.
pub open spec fn be_bytes(value: u64) -> Seq<u8> {
    seq![
        (value / 0x100_0000_0000_0000 % 256) as u8,
        (value / 0x1_0000_0000_0000 % 256) as u8,
        (value / 0x100_0000_0000 % 256) as u8,
        (value / 0x1_0000_0000 % 256) as u8,
        (value / 0x100_0000 % 256) as u8,
        (value / 0x1_0000 % 256) as u8,
        (value / 0x100 % 256) as u8,
        (value % 256) as u8,
    ]
}

/// The number that eight bytes spell when read most significant first.
pub open spec fn be_value(bytes: Seq<u8>) -> nat
    recommends
        bytes.len() == 8,
{
    (bytes[0] * 0x100_0000_0000_0000 + bytes[1] * 0x1_0000_0000_0000 + bytes[2] * 0x100_0000_0000
        + bytes[3] * 0x1_0000_0000 + bytes[4] * 0x100_0000 + bytes[5] * 0x1_0000 + bytes[6] * 0x100
        + bytes[7]) as nat
}

/// Eight bytes always spell a number that fits a 64-bit word.
pub proof fn lemma_be_value_fits(bytes: Seq<u8>)
    requires
        bytes.len() == 8,
    ensures
        be_value(bytes) <= u64::MAX,
{
}

/// Reading back what was written gives the word that was written.
pub proof fn lemma_decode_encode(value: u64)
    ensures
        be_bytes(value).len() == 8,
        be_value(be_bytes(value)) == value,
{
    let d0 = value / 0x100_0000_0000_0000 % 256;
    let d1 = value / 0x1_0000_0000_0000 % 256;
    let d2 = value / 0x100_0000_0000 % 256;
    let d3 = value / 0x1_0000_0000 % 256;
    let d4 = value / 0x100_0000 % 256;
    let d5 = value / 0x1_0000 % 256;
    let d6 = value / 0x100 % 256;
    let d7 = value % 256;
    assert(value == d0 * 0x100_0000_0000_0000 + d1 * 0x1_0000_0000_0000 + d2 * 0x100_0000_0000 + d3
        * 0x1_0000_0000 + d4 * 0x100_0000 + d5 * 0x1_0000 + d6 * 0x100 + d7) by (bit_vector)
        requires
            d0 == value / 0x100_0000_0000_0000 % 256,
            d1 == value / 0x1_0000_0000_0000 % 256,
            d2 == value / 0x100_0000_0000 % 256,
            d3 == value / 0x1_0000_0000 % 256,
            d4 == value / 0x100_0000 % 256,
            d5 == value / 0x1_0000 % 256,
            d6 == value / 0x100 % 256,
            d7 == value % 256,
    ;
    let bytes = be_bytes(value);
    assert(bytes[0] == d0 && bytes[1] == d1 && bytes[2] == d2 && bytes[3] == d3);
    assert(bytes[4] == d4 && bytes[5] == d5 && bytes[6] == d6 && bytes[7] == d7);
}

/// Writing out what was read gives the bytes that were read.
pub proof fn lemma_encode_decode(bytes: Seq<u8>)
    requires
        bytes.len() == 8,
    ensures
        be_bytes(be_value(bytes) as u64) == bytes,
{
    let b0 = bytes[0] as u64;
    let b1 = bytes[1] as u64;
    let b2 = bytes[2] as u64;
    let b3 = bytes[3] as u64;
    let b4 = bytes[4] as u64;
    let b5 = bytes[5] as u64;
    let b6 = bytes[6] as u64;
    let b7 = bytes[7] as u64;
    let value = be_value(bytes) as u64;
    assert(value == b0 * 0x100_0000_0000_0000 + b1 * 0x1_0000_0000_0000 + b2 * 0x100_0000_0000 + b3
        * 0x1_0000_0000 + b4 * 0x100_0000 + b5 * 0x1_0000 + b6 * 0x100 + b7);
    assert(value / 0x100_0000_0000_0000 % 256 == b0 && value / 0x1_0000_0000_0000 % 256 == b1
        && value / 0x100_0000_0000 % 256 == b2 && value / 0x1_0000_0000 % 256 == b3 && value
        / 0x100_0000 % 256 == b4 && value / 0x1_0000 % 256 == b5 && value / 0x100 % 256 == b6
        && value % 256 == b7) by (bit_vector)
        requires
            value == b0 * 0x100_0000_0000_0000 + b1 * 0x1_0000_0000_0000 + b2 * 0x100_0000_0000
                + b3 * 0x1_0000_0000 + b4 * 0x100_0000 + b5 * 0x1_0000 + b6 * 0x100 + b7,
            b0 < 256,
            b1 < 256,
            b2 < 256,
            b3 < 256,
            b4 < 256,
            b5 < 256,
            b6 < 256,
            b7 < 256,
    ;
    assert(be_bytes(value) =~= bytes);
}

/// Encodes a public value as the eight bytes that go on the wire.
pub fn encode_public_key(public: u64) -> (bytes: [u8; 8])
    ensures
        bytes@ == be_bytes(public),
{
    let b0 = ((public >> 56) & 0xff) as u8;
    let b1 = ((public >> 48) & 0xff) as u8;
    let b2 = ((public >> 40) & 0xff) as u8;
    let b3 = ((public >> 32) & 0xff) as u8;
    let b4 = ((public >> 24) & 0xff) as u8;
    let b5 = ((public >> 16) & 0xff) as u8;
    let b6 = ((public >> 8) & 0xff) as u8;
    let b7 = (public & 0xff) as u8;
    proof {
        assert((public >> 56) & 0xff == public / 0x100_0000_0000_0000 % 256) by (bit_vector);
        assert((public >> 48) & 0xff == public / 0x1_0000_0000_0000 % 256) by (bit_vector);
        assert((public >> 40) & 0xff == public / 0x100_0000_0000 % 256) by (bit_vector);
        assert((public >> 32) & 0xff == public / 0x1_0000_0000 % 256) by (bit_vector);
        assert((public >> 24) & 0xff == public / 0x100_0000 % 256) by (bit_vector);
        assert((public >> 16) & 0xff == public / 0x1_0000 % 256) by (bit_vector);
        assert((public >> 8) & 0xff == public / 0x100 % 256) by (bit_vector);
        assert(public & 0xff == public % 256) by (bit_vector);
    }
    let bytes = [b0, b1, b2, b3, b4, b5, b6, b7];
    assert(bytes@ =~= be_bytes(public));
    bytes
}

/// Decodes a public value from what was read off the wire.
///
/// Exactly eight bytes make a value; any other count is a failed read and
/// yields `None`.
pub fn decode_public_key(bytes: &[u8]) -> (public: Option<u64>)
    ensures
        public.is_some() <==> bytes@.len() == 8,
        public matches Some(value) ==> value == be_value(bytes@),
{
    if bytes.len() != 8 {
        return None;
    }
    let b0 = bytes[0] as u64;
    let b1 = bytes[1] as u64;
    let b2 = bytes[2] as u64;
    let b3 = bytes[3] as u64;
    let b4 = bytes[4] as u64;
    let b5 = bytes[5] as u64;
    let b6 = bytes[6] as u64;
    let b7 = bytes[7] as u64;
    let value = (b0 << 56) | (b1 << 48) | (b2 << 40) | (b3 << 32) | (b4 << 24) | (b5 << 16) | (b6
        << 8) | b7;
    assert(value == b0 * 0x100_0000_0000_0000 + b1 * 0x1_0000_0000_0000 + b2 * 0x100_0000_0000 + b3
        * 0x1_0000_0000 + b4 * 0x100_0000 + b5 * 0x1_0000 + b6 * 0x100 + b7) by (bit_vector)
        requires
            value == (b0 << 56) | (b1 << 48) | (b2 << 40) | (b3 << 32) | (b4 << 24) | (b5 << 16) | (
            b6 << 8) | b7,
            b0 < 256,
            b1 < 256,
            b2 < 256,
            b3 < 256,
            b4 < 256,
            b5 < 256,
            b6 < 256,
            b7 < 256,
    ;
    Some(value)
}

} // verus!

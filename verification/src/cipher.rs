//! The stream cipher: a byte buffer XORed against a keystream that walks the
//! eight bytes of a 64-bit key.
//!
//! The keystream starts afresh on every buffer. Position 0 takes the key's
//! lowest byte, position 1 its highest, position 2 the one below that, and so
//! on downwards; after eight positions the pattern repeats.

use vstd::prelude::*;

verus! {

/// Byte `index` of `word`, counted from the least significant end.
pub open spec fn word_byte(word: u64, index: nat) -> u8 {
    ((word >> ((8 * index) as u64)) & 0xff) as u8
}

/// Which byte of the key masks position `position` of a buffer.
pub open spec fn keystream_index(position: nat) -> nat {
    ((8 - position % 8) % 8) as nat
}

/// The keystream byte that masks position `position` of a buffer.
pub open spec fn keystream_byte(key: u64, position: nat) -> u8 {
    word_byte(key, keystream_index(position))
}

/// The cipher as a function on sequences: each byte XORed with the keystream
/// byte of its own position.
pub open spec fn transform(data: Seq<u8>, key: u64) -> Seq<u8> {
    Seq::new(data.len(), |i: int| data[i] ^ keystream_byte(key, i as nat))
}

/// A circular rotation of a word by one byte towards the most significant end.
pub open spec fn rotate_byte_left(word: u64) -> u64 {
    (word << 8) | (word >> 56)
}

/// The rotating register after `steps` one-byte rotations of `key`.
pub open spec fn register_after(key: u64, steps: nat) -> u64
    decreases steps,
{
    if steps == 0 {
        key
    } else {
        rotate_byte_left(register_after(key, (steps - 1) as nat))
    }
}

/// The register is back at the key after eight rotations, and its lowest byte
/// after `r < 8` rotations is the keystream byte of position `r`.
proof fn lemma_register_cycle(key: u64, r: nat)
    requires
        r < 8,
    ensures
        (register_after(key, r) & 0xff) as u8 == keystream_byte(key, r),
        register_after(key, 8) == key,
{
    reveal_with_fuel(register_after, 9);
    let r1 = rotate_byte_left(key);
    let r2 = rotate_byte_left(r1);
    let r3 = rotate_byte_left(r2);
    let r4 = rotate_byte_left(r3);
    let r5 = rotate_byte_left(r4);
    let r6 = rotate_byte_left(r5);
    let r7 = rotate_byte_left(r6);
    assert(register_after(key, 7) == r7);
    assert(rotate_byte_left(r7) == key) by (bit_vector)
        requires
            r1 == rotate_byte_left(key),
            r2 == rotate_byte_left(r1),
            r3 == rotate_byte_left(r2),
            r4 == rotate_byte_left(r3),
            r5 == rotate_byte_left(r4),
            r6 == rotate_byte_left(r5),
            r7 == rotate_byte_left(r6),
    ;
    assert(key & 0xff == (key >> 0) & 0xff && r1 & 0xff == (key >> 56) & 0xff && r2 & 0xff == (key
        >> 48) & 0xff && r3 & 0xff == (key >> 40) & 0xff && r4 & 0xff == (key >> 32) & 0xff && r5
        & 0xff == (key >> 24) & 0xff && r6 & 0xff == (key >> 16) & 0xff && r7 & 0xff == (key >> 8)
        & 0xff) by (bit_vector)
        requires
            r1 == rotate_byte_left(key),
            r2 == rotate_byte_left(r1),
            r3 == rotate_byte_left(r2),
            r4 == rotate_byte_left(r3),
            r5 == rotate_byte_left(r4),
            r6 == rotate_byte_left(r5),
            r7 == rotate_byte_left(r6),
    ;
}

/// Eight more rotations bring the register back to where it was.
proof fn lemma_register_period(key: u64, steps: nat)
    ensures
        register_after(key, steps + 8) == register_after(key, steps),
    decreases steps,
{
    if steps == 0 {
        lemma_register_cycle(key, 0);
    } else {
        lemma_register_period(key, (steps - 1) as nat);
    }
}

/// The keystream is the rotating register read at its lowest byte: the byte
/// that masks a position is the lowest byte of a register that started at the
/// key and has turned left by eight bits once for each position before it.
pub proof fn lemma_keystream_is_register(key: u64, position: nat)
    ensures
        keystream_byte(key, position) == (register_after(key, position) & 0xff) as u8,
        register_after(key, position) & 0xff < 256,
    decreases position,
{
    let register = register_after(key, position);
    assert(register & 0xff < 256) by (bit_vector);
    if position < 8 {
        lemma_register_cycle(key, position);
    } else {
        let earlier = (position - 8) as nat;
        lemma_keystream_is_register(key, earlier);
        lemma_register_period(key, earlier);
        lemma_keystream_period(key, earlier);
    }
}

/// The keystream repeats every eight positions.
pub proof fn lemma_keystream_period(key: u64, position: nat)
    ensures
        keystream_byte(key, position + 8) == keystream_byte(key, position),
{
    assert((position + 8) % 8 == position % 8);
}

/// The cipher keeps the length of its input.
pub proof fn lemma_transform_len(data: Seq<u8>, key: u64)
    ensures
        transform(data, key).len() == data.len(),
{
}

/// Applying the cipher twice under one key gives the input back.
pub proof fn lemma_transform_involution(data: Seq<u8>, key: u64)
    ensures
        transform(transform(data, key), key) == data,
{
    let once = transform(data, key);
    let twice = transform(once, key);
    assert forall|i: int| 0 <= i < data.len() implies twice[i] == data[i] by {
        let d = data[i];
        let k = keystream_byte(key, i as nat);
        assert((d ^ k) ^ k == d) by (bit_vector);
    }
    assert(twice =~= data);
}

/// The empty buffer is its own ciphertext under every key.
pub proof fn lemma_transform_empty(key: u64)
    ensures
        transform(Seq::<u8>::empty(), key) == Seq::<u8>::empty(),
{
    assert(transform(Seq::<u8>::empty(), key) =~= Seq::<u8>::empty());
}

/// One run of the cipher over two buffers laid end to end begins with the
/// first buffer's own ciphertext, whatever follows it.
pub proof fn lemma_transform_prefix(first: Seq<u8>, rest: Seq<u8>, key: u64)
    ensures
        transform(first + rest, key).subrange(0, first.len() as int) == transform(first, key),
{
    assert(transform(first + rest, key).subrange(0, first.len() as int) =~= transform(first, key));
}

/// One run of the cipher over two buffers laid end to end equals the two
/// buffers' own ciphertexts laid end to end when the first buffer's length is
/// a multiple of eight, the keystream's period.
pub proof fn lemma_transform_aligned_concat(first: Seq<u8>, rest: Seq<u8>, key: u64)
    requires
        first.len() % 8 == 0,
    ensures
        transform(first + rest, key) == transform(first, key) + transform(rest, key),
{
    let joined = transform(first + rest, key);
    let parts = transform(first, key) + transform(rest, key);
    assert forall|i: int| 0 <= i < joined.len() implies joined[i] == parts[i] by {
        if i >= first.len() {
            let j = (i - first.len()) as nat;
            assert((i as nat) % 8 == j % 8);
        }
    }
    assert(joined =~= parts);
}

/// Encrypts or decrypts `data` under `key`: the two directions are one
/// operation.
///
/// A register starts at `key`; each input byte is XORed with the register's
/// lowest byte, after which the register turns left by eight bits.
pub fn xor_cipher(data: &[u8], key: u64) -> (out: Vec<u8>)
    ensures
        out@ == transform(data@, key),
        out@.len() == data@.len(),
{
    let mut out: Vec<u8> = Vec::new();
    let mut keystream: u64 = key;
    let mut i: usize = 0;
    while i < data.len()
        invariant
            i <= data.len(),
            out@.len() == i,
            keystream == register_after(key, i as nat),
            forall|j: int| 0 <= j < i ==> out@[j] == data@[j] ^ keystream_byte(key, j as nat),
        decreases data.len() - i,
    {
        proof {
            lemma_keystream_is_register(key, i as nat);
        }
        let k: u8 = (keystream & 0xFF) as u8;
        keystream = (keystream << 8) | (keystream >> 56);
        out.push(data[i] ^ k);
        i += 1;
    }
    assert(out@ =~= transform(data@, key));
    out
}

} // verus!

use cipher_chat::cipher::xor_cipher;

const KEY: u64 = 0x1122334455667788;

#[test]
fn three_bytes_under_the_pinned_key() {
    let cipher = xor_cipher(&[0x41, 0x42, 0x43], KEY);
    assert_eq!(cipher, vec![0xc9, 0x53, 0x61]);
    assert_eq!(xor_cipher(&[0x41, 0x42, 0x43], KEY), cipher);
}

#[test]
fn a_line_under_the_pinned_key() {
    let cipher = xor_cipher(b"hello, world\n", KEY);
    assert_eq!(
        cipher,
        vec![0xe0, 0x74, 0x4e, 0x5f, 0x2b, 0x79, 0x46, 0x00, 0xe7, 0x63, 0x4e, 0x57, 0x4e]
    );
}

#[test]
fn keystream_walks_the_key_from_the_top_after_the_lowest_byte() {
    let zeros = [0u8; 9];
    assert_eq!(
        xor_cipher(&zeros, KEY),
        vec![0x88, 0x11, 0x22, 0x33, 0x44, 0x55, 0x66, 0x77, 0x88]
    );
}

#[test]
fn twice_is_the_identity() {
    let message: Vec<u8> = (0..=255u8).chain(0..50u8).collect();
    for key in [0u64, 1, KEY, 0x0102030405060708, u64::MAX] {
        let once = xor_cipher(&message, key);
        assert_eq!(once.len(), message.len());
        assert_eq!(xor_cipher(&once, key), message);
    }
}

#[test]
fn empty_buffer_stays_empty() {
    for key in [0u64, KEY, u64::MAX] {
        assert_eq!(xor_cipher(&[], key), Vec::<u8>::new());
    }
}

#[test]
fn zero_key_changes_nothing() {
    assert_eq!(xor_cipher(b"plain", 0), b"plain".to_vec());
}

#[test]
fn keystream_repeats_every_eight_bytes() {
    let data: Vec<u8> = (0..20u8).collect();
    assert_eq!(
        xor_cipher(&data, 0x0102030405060708),
        vec![
            0x08, 0x00, 0x00, 0x00, 0x00, 0x00, 0x00, 0x00, 0x00, 0x08, 0x08, 0x08, 0x08, 0x08,
            0x08, 0x08, 0x18, 0x10, 0x10, 0x10
        ]
    );
    let zeros = [0u8; 32];
    let stream = xor_cipher(&zeros, KEY);
    for i in 0..24 {
        assert_eq!(stream[i], stream[i + 8]);
    }
}

#[test]
fn every_call_starts_the_keystream_afresh() {
    let first = xor_cipher(b"abc", KEY);
    let second = xor_cipher(b"abc", KEY);
    assert_eq!(first, second);
}

#[test]
fn one_run_over_two_writes_recovers_only_the_first() {
    let first = xor_cipher(b"hi\n", KEY);
    let second = xor_cipher(b"there\n", KEY);
    let mut joined = first.clone();
    joined.extend_from_slice(&second);
    let plain = xor_cipher(&joined, KEY);
    assert_eq!(&plain[..3], b"hi\n");
    assert_ne!(&plain[3..], b"there\n");
}

#[test]
fn one_run_over_two_writes_recovers_both_when_the_first_fills_the_period() {
    let first = xor_cipher(b"8 bytes\n", KEY);
    let second = xor_cipher(b"there\n", KEY);
    let mut joined = first.clone();
    joined.extend_from_slice(&second);
    assert_eq!(xor_cipher(&joined, KEY), b"8 bytes\nthere\n".to_vec());
}

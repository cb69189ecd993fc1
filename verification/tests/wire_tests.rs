use cipher_chat::wire::{decode_public_key, encode_public_key, PUBLIC_KEY_LEN};

#[test]
fn public_key_goes_out_most_significant_byte_first() {
    assert_eq!(
        encode_public_key(0x1122334455667788),
        [0x11, 0x22, 0x33, 0x44, 0x55, 0x66, 0x77, 0x88]
    );
    assert_eq!(encode_public_key(0), [0; 8]);
    assert_eq!(encode_public_key(1), [0, 0, 0, 0, 0, 0, 0, 1]);
    assert_eq!(encode_public_key(u64::MAX), [0xff; 8]);
    assert_eq!(encode_public_key(0x1122334455667788).len(), PUBLIC_KEY_LEN);
}

#[test]
fn encoding_matches_the_standard_big_endian_form() {
    for value in [0u64, 1, 0x80, 0x0123456789ABCDEF, 0xD87FA3E291B4C7F3, u64::MAX] {
        assert_eq!(encode_public_key(value), value.to_be_bytes());
        assert_eq!(decode_public_key(&value.to_be_bytes()), Some(value));
    }
}

#[test]
fn eight_bytes_decode_to_the_value_they_spell() {
    assert_eq!(
        decode_public_key(&[0x11, 0x22, 0x33, 0x44, 0x55, 0x66, 0x77, 0x88]),
        Some(0x1122334455667788)
    );
    assert_eq!(decode_public_key(&[0, 0, 0, 0, 0, 0, 1, 0]), Some(256));
    assert_eq!(decode_public_key(&[0xff; 8]), Some(u64::MAX));
}

#[test]
fn any_other_count_of_bytes_is_no_public_key() {
    assert_eq!(decode_public_key(&[]), None);
    assert_eq!(decode_public_key(&[1, 2, 3, 4, 5, 6, 7]), None);
    assert_eq!(decode_public_key(&[1, 2, 3, 4, 5, 6, 7, 8, 9]), None);
}

#[test]
fn decode_undoes_encode() {
    for value in [0u64, 7, 0x8ec2d020eed25d00, u64::MAX - 1] {
        assert_eq!(decode_public_key(&encode_public_key(value)), Some(value));
    }
    let bytes = [9u8, 8, 7, 6, 5, 4, 3, 2];
    assert_eq!(encode_public_key(decode_public_key(&bytes).unwrap()), bytes);
}

use cipher_chat::hexdump::{hex_to_bytes, hexdump, is_printable};

#[test]
fn printable_buffers() {
    assert!(is_printable(b""));
    assert!(is_printable(b"hello world"));
    assert!(is_printable(b" ~!"));
    assert!(is_printable(&[0x20, 0x7e]));
}

#[test]
fn buffers_that_are_not_printable() {
    assert!(!is_printable(b"line\n"));
    assert!(!is_printable(b"tab\there"));
    assert!(!is_printable(&[0x1f]));
    assert!(!is_printable(&[0x7f]));
    assert!(!is_printable(&[b'a', 0x80, b'b']));
    assert!(!is_printable(&[b'a', b'b', 0x00]));
}

#[test]
fn printable_agrees_with_the_standard_predicates() {
    for byte in 0..=255u8 {
        assert_eq!(
            is_printable(&[byte]),
            byte.is_ascii_graphic() || byte == b' '
        );
    }
}

#[test]
fn hexadecimal_text_to_bytes() {
    assert_eq!(hex_to_bytes(""), Some(vec![]));
    assert_eq!(hex_to_bytes("00"), Some(vec![0]));
    assert_eq!(hex_to_bytes("ff"), Some(vec![255]));
    assert_eq!(hex_to_bytes("FF"), Some(vec![255]));
    assert_eq!(hex_to_bytes("deadBEEF"), Some(vec![0xde, 0xad, 0xbe, 0xef]));
    assert_eq!(hex_to_bytes("414243"), Some(b"ABC".to_vec()));
}

#[test]
fn pair_of_a_plus_sign_and_a_digit_is_read_as_a_number() {
    assert_eq!(hex_to_bytes("+f"), Some(vec![15]));
    assert_eq!(hex_to_bytes("0a+1"), Some(vec![10, 1]));
    assert_eq!(hex_to_bytes("++"), None);
    assert_eq!(hex_to_bytes("f+"), None);
}

#[test]
fn text_that_spells_no_bytes() {
    assert_eq!(hex_to_bytes("0"), None);
    assert_eq!(hex_to_bytes("abc"), None);
    assert_eq!(hex_to_bytes("zz"), None);
    assert_eq!(hex_to_bytes("0g"), None);
    assert_eq!(hex_to_bytes("-1"), None);
    assert_eq!(hex_to_bytes("0x10"), None);
    assert_eq!(hex_to_bytes("12 4"), None);
    assert_eq!(hex_to_bytes("\u{e9}"), None);
    assert_eq!(hex_to_bytes("ab\u{e9}"), None);
    assert_eq!(hex_to_bytes("a\u{e9}b"), None);
}

#[test]
fn pairs_agree_with_the_standard_parser() {
    let alphabet = ['0', '9', 'a', 'f', 'A', 'F', 'g', '+', '-', ' ', 'x'];
    for high in alphabet {
        for low in alphabet {
            let text: String = [high, low].iter().collect();
            let expected = u8::from_str_radix(&text, 16).ok().map(|byte| vec![byte]);
            assert_eq!(hex_to_bytes(&text), expected, "{:?}", text);
        }
    }
}

#[test]
fn dump_of_an_empty_buffer() {
    assert_eq!(
        hexdump(0, b""),
        b"00000000: .. .. .. .. .. .. .. .. .. .. .. .. .. .. .. ..  ||".to_vec()
    );
}

#[test]
fn dump_of_a_short_buffer() {
    assert_eq!(
        hexdump(0x10, b"\x00\x01AB\xff"),
        b"00000010: 00 01 41 42 ff .. .. .. .. .. .. .. .. .. .. ..  |..AB.|".to_vec()
    );
}

#[test]
fn dump_shows_sixteen_columns_and_all_of_the_text() {
    let buf: Vec<u8> = (0x1e..0x30u8).collect();
    assert_eq!(
        hexdump(0x123456789, &buf),
        b"123456789: 1e 1f 20 21 22 23 24 25 26 27 28 29 2a 2b 2c 2d  |.. !\"#$%&'()*+,-./|"
            .to_vec()
    );
}

#[test]
fn dump_at_the_largest_offset() {
    assert_eq!(
        hexdump(u64::MAX, b"\x7e\x7f "),
        b"ffffffffffffffff: 7e 7f 20 .. .. .. .. .. .. .. .. .. .. .. .. ..  |~. |".to_vec()
    );
}

#[test]
fn dump_agrees_with_the_standard_formatter() {
    for offset in [0u64, 9, 0xabcdef, 0xffff_ffff, 0x1_0000_0000, u64::MAX / 3] {
        let line = hexdump(offset, b"ok");
        let expected = format!(
            "{:08x}: {:02x} {:02x} {} |ok|",
            offset,
            b'o',
            b'k',
            ".. ".repeat(14)
        );
        assert_eq!(line, expected.into_bytes());
    }
}

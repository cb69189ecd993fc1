use cipher_chat::greeting::{greet, greeting};

#[test]
fn greeting_as_written() {
    assert_eq!(greet("World"), "Hello, World!");
    assert_eq!(greeting("World", false), "Hello, World!");
    assert_eq!(greeting("", false), "Hello, !");
    assert_eq!(greeting("Zo\u{e9}", false), "Hello, Zo\u{e9}!");
}

#[test]
fn greeting_in_capitals() {
    assert_eq!(greeting("World", true), "HELLO, WORLD!");
    assert_eq!(greeting("zo\u{e9}", true), "HELLO, ZO\u{c9}!");
    assert_eq!(greeting("stra\u{df}e", true), "HELLO, STRASSE!");
    assert_eq!(greeting("a1-b", true), "HELLO, A1-B!");
}

#[test]
fn capitals_agree_with_the_standard_mapping() {
    for name in ["World", "rust", "\u{1f980}", "\u{fb01}n"] {
        assert_eq!(
            greeting(name, true),
            format!("Hello, {}!", name).to_uppercase()
        );
    }
}

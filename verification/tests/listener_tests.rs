use cipher_chat::listener::AcceptOnce;

#[test]
fn second_connection_is_not_accepted() {
    let mut door = AcceptOnce::new();
    assert!(!door.is_taken());
    assert!(door.accept());
    assert!(door.is_taken());
    assert!(!door.accept());
    assert!(!door.accept());
    assert!(door.is_taken());
}

#[test]
fn each_listener_accepts_its_own_first_connection() {
    let mut first = AcceptOnce::new();
    let mut second = AcceptOnce::new();
    assert!(first.accept());
    assert!(second.accept());
    assert!(!first.accept());
}

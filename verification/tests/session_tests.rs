use cipher_chat::cipher::xor_cipher;
use cipher_chat::dh::{dh_compute_secret, dh_public_key};
use cipher_chat::session::{
    HandshakeAction, InboundAction, OutboundAction, PathEnd, Phase, Role, Session, INBOUND_CHUNK,
};
use cipher_chat::wire::encode_public_key;

const LISTENER_PRIVATE: u64 = 0x0123456789ABCDEF;
const INITIATOR_PRIVATE: u64 = 0xFEDCBA9876543210;
const SECRET: u64 = 0x6b1a052790c369fa;

fn active_listener() -> Session {
    let mut session = Session::new(Role::Listener, LISTENER_PRIVATE);
    session.on_key_sent();
    session.on_key_received(&encode_public_key(dh_public_key(INITIATOR_PRIVATE)));
    session
}

fn active_initiator() -> Session {
    let mut session = Session::new(Role::Initiator, INITIATOR_PRIVATE);
    session.on_key_received(&encode_public_key(dh_public_key(LISTENER_PRIVATE)));
    session.on_key_sent();
    session
}

#[test]
fn new_session_is_handshaking() {
    let session = Session::new(Role::Listener, 5);
    assert_eq!(session.phase(), Phase::Handshaking);
    assert_eq!(session.role(), Role::Listener);
    assert_eq!(session.public_key(), dh_public_key(5));
    assert_eq!(session.secret(), None);
    assert_eq!(session.inbound_end(), None);
    assert_eq!(session.outbound_end(), None);
}

#[test]
fn started_session_holds_a_matching_key_pair() {
    let session = Session::start(Role::Initiator);
    assert_eq!(session.phase(), Phase::Handshaking);
    assert_eq!(session.role(), Role::Initiator);
    assert_eq!(session.handshake_action(), HandshakeAction::ReceivePublicKey);
    let other = Session::start(Role::Listener);
    match other.handshake_action() {
        HandshakeAction::SendPublicKey(bytes) => {
            assert_eq!(bytes, encode_public_key(other.public_key()))
        }
        action => panic!("unexpected action {:?}", action),
    }
}

#[test]
fn listener_sends_before_it_receives() {
    let mut session = Session::new(Role::Listener, LISTENER_PRIVATE);
    assert_eq!(
        session.handshake_action(),
        HandshakeAction::SendPublicKey(encode_public_key(0x82ebb0d94a57f078))
    );
    session.on_key_sent();
    assert_eq!(session.phase(), Phase::Handshaking);
    assert_eq!(session.handshake_action(), HandshakeAction::ReceivePublicKey);
    session.on_key_received(&encode_public_key(0x8ec2d020eed25d00));
    assert_eq!(session.phase(), Phase::Active);
    assert_eq!(session.handshake_action(), HandshakeAction::Established(SECRET));
    assert_eq!(session.secret(), Some(SECRET));
}

#[test]
fn initiator_receives_before_it_sends() {
    let mut session = Session::new(Role::Initiator, INITIATOR_PRIVATE);
    assert_eq!(session.handshake_action(), HandshakeAction::ReceivePublicKey);
    session.on_key_received(&encode_public_key(0x82ebb0d94a57f078));
    assert_eq!(session.phase(), Phase::Handshaking);
    assert_eq!(session.secret(), None);
    assert_eq!(
        session.handshake_action(),
        HandshakeAction::SendPublicKey(encode_public_key(0x8ec2d020eed25d00))
    );
    session.on_key_sent();
    assert_eq!(session.phase(), Phase::Active);
    assert_eq!(session.handshake_action(), HandshakeAction::Established(SECRET));
}

#[test]
fn peers_exchange_public_values_and_derive_one_secret() {
    let mut listener = Session::new(Role::Listener, LISTENER_PRIVATE);
    let mut initiator = Session::new(Role::Initiator, INITIATOR_PRIVATE);

    let from_listener = match listener.handshake_action() {
        HandshakeAction::SendPublicKey(bytes) => bytes,
        action => panic!("unexpected action {:?}", action),
    };
    listener.on_key_sent();
    assert_eq!(initiator.handshake_action(), HandshakeAction::ReceivePublicKey);
    initiator.on_key_received(&from_listener);

    let from_initiator = match initiator.handshake_action() {
        HandshakeAction::SendPublicKey(bytes) => bytes,
        action => panic!("unexpected action {:?}", action),
    };
    initiator.on_key_sent();
    assert_eq!(listener.handshake_action(), HandshakeAction::ReceivePublicKey);
    listener.on_key_received(&from_initiator);

    assert_eq!(listener.phase(), Phase::Active);
    assert_eq!(initiator.phase(), Phase::Active);
    assert_eq!(listener.secret(), initiator.secret());
    assert_eq!(listener.secret(), Some(SECRET));
    assert_eq!(
        listener.secret(),
        Some(dh_compute_secret(dh_public_key(INITIATOR_PRIVATE), LISTENER_PRIVATE))
    );
}

#[test]
fn randomly_keyed_peers_derive_one_secret() {
    let mut listener = Session::start(Role::Listener);
    let mut initiator = Session::start(Role::Initiator);
    listener.on_key_sent();
    initiator.on_key_received(&encode_public_key(listener.public_key()));
    initiator.on_key_sent();
    listener.on_key_received(&encode_public_key(initiator.public_key()));
    assert!(listener.secret().is_some());
    assert_eq!(listener.secret(), initiator.secret());
}

#[test]
fn short_read_of_the_public_key_closes_the_session() {
    let mut session = Session::new(Role::Initiator, 9);
    session.on_key_received(&[1, 2, 3, 4, 5, 6, 7]);
    assert_eq!(session.phase(), Phase::Closed);
    assert_eq!(session.handshake_action(), HandshakeAction::Abort);
    assert_eq!(session.secret(), None);

    let mut session = Session::new(Role::Listener, 9);
    session.on_key_sent();
    session.on_key_received(&[]);
    assert_eq!(session.phase(), Phase::Closed);
    assert_eq!(session.handshake_action(), HandshakeAction::Abort);
}

#[test]
fn handshake_error_closes_the_session_for_good() {
    let mut session = Session::new(Role::Listener, 9);
    session.on_handshake_error();
    assert_eq!(session.phase(), Phase::Closed);
    assert_eq!(session.handshake_action(), HandshakeAction::Abort);
    session.on_key_sent();
    session.on_key_received(&encode_public_key(4));
    assert_eq!(session.phase(), Phase::Closed);
    assert_eq!(session.secret(), None);
    assert_eq!(session.on_line(b"hi"), OutboundAction::Stop);
    assert_eq!(session.on_inbound_chunk(b"hi"), InboundAction::Stop);
}

#[test]
fn handshake_error_after_the_handshake_changes_nothing() {
    let mut session = active_listener();
    session.on_handshake_error();
    assert_eq!(session.phase(), Phase::Active);
    assert_eq!(session.secret(), Some(SECRET));
}

#[test]
fn reports_that_are_not_awaited_change_nothing() {
    let mut session = Session::new(Role::Initiator, INITIATOR_PRIVATE);
    session.on_key_sent();
    assert_eq!(session.handshake_action(), HandshakeAction::ReceivePublicKey);
    session.on_key_received(&encode_public_key(dh_public_key(LISTENER_PRIVATE)));
    session.on_key_received(&encode_public_key(77));
    assert_eq!(session.phase(), Phase::Handshaking);
    session.on_key_sent();
    assert_eq!(session.secret(), Some(SECRET));
    session.on_key_sent();
    session.on_key_received(&[1]);
    assert_eq!(session.secret(), Some(SECRET));
    assert_eq!(session.phase(), Phase::Active);

    let mut listener = Session::new(Role::Listener, LISTENER_PRIVATE);
    listener.on_key_received(&encode_public_key(77));
    assert_eq!(
        listener.handshake_action(),
        HandshakeAction::SendPublicKey(encode_public_key(dh_public_key(LISTENER_PRIVATE)))
    );
}

#[test]
fn paths_do_nothing_before_the_session_is_established() {
    let mut session = Session::new(Role::Listener, 3);
    assert_eq!(session.on_line(b"early"), OutboundAction::Stop);
    assert_eq!(session.on_inbound_chunk(b"early"), InboundAction::Stop);
    session.on_inbound_error();
    session.on_input_end();
    session.on_outbound_error();
    assert_eq!(session.phase(), Phase::Handshaking);
    assert_eq!(session.inbound_end(), None);
    assert_eq!(session.outbound_end(), None);
}

#[test]
fn outbound_line_is_framed_and_enciphered() {
    let session = active_listener();
    let expected = xor_cipher(b"hello\n", SECRET);
    assert_eq!(session.on_line(b"hello"), OutboundAction::Send(expected));
    assert_eq!(
        session.on_line(b""),
        OutboundAction::Send(xor_cipher(b"\n", SECRET))
    );
    assert_eq!(
        session.on_line(b""),
        OutboundAction::Send(vec![0x0a ^ 0xfa])
    );
}

#[test]
fn inbound_chunk_is_deciphered_and_tagged() {
    let mut session = active_initiator();
    let chunk = xor_cipher(b"hello\n", SECRET);
    assert_eq!(
        session.on_inbound_chunk(&chunk),
        InboundAction::Deliver(b"> hello\n".to_vec())
    );
    assert_eq!(session.inbound_end(), None);
    assert_eq!(session.phase(), Phase::Active);
}

#[test]
fn what_one_peer_sends_the_other_delivers() {
    let listener = active_listener();
    let mut initiator = active_initiator();
    let frame = match listener.on_line(b"over the wire") {
        OutboundAction::Send(frame) => frame,
        action => panic!("unexpected action {:?}", action),
    };
    assert_ne!(frame, b"over the wire\n".to_vec());
    assert_eq!(
        initiator.on_inbound_chunk(&frame),
        InboundAction::Deliver(b"> over the wire\n".to_vec())
    );
}

#[test]
fn full_chunk_is_deciphered_in_one_run() {
    let mut session = active_listener();
    let plain = vec![b'x'; INBOUND_CHUNK];
    let chunk = xor_cipher(&plain, SECRET);
    let mut expected = b"> ".to_vec();
    expected.extend_from_slice(&plain);
    assert_eq!(INBOUND_CHUNK, 512);
    assert_eq!(session.on_inbound_chunk(&chunk), InboundAction::Deliver(expected));
}

#[test]
fn zero_length_read_ends_only_the_inbound_path() {
    let mut session = active_listener();
    assert_eq!(session.on_inbound_chunk(&[]), InboundAction::Stop);
    assert_eq!(session.inbound_end(), Some(PathEnd::Finished));
    assert_eq!(session.outbound_end(), None);
    assert_eq!(session.phase(), Phase::Active);
    assert_eq!(
        session.on_line(b"still here"),
        OutboundAction::Send(xor_cipher(b"still here\n", SECRET))
    );
    assert_eq!(session.on_inbound_chunk(b"late"), InboundAction::Stop);
    session.on_outbound_error();
    assert_eq!(session.outbound_end(), Some(PathEnd::Failed));
    assert_eq!(session.phase(), Phase::Closed);
}

#[test]
fn inbound_error_ends_only_the_inbound_path() {
    let mut session = active_initiator();
    assert_eq!(session.on_inbound_error(), InboundAction::Stop);
    assert_eq!(session.inbound_end(), Some(PathEnd::Failed));
    assert_eq!(session.outbound_end(), None);
    assert_eq!(session.phase(), Phase::Active);
    assert_eq!(
        session.on_line(b"x"),
        OutboundAction::Send(xor_cipher(b"x\n", SECRET))
    );
    session.on_inbound_chunk(&[]);
    assert_eq!(session.inbound_end(), Some(PathEnd::Failed));
}

#[test]
fn end_of_input_closes_the_session_and_leaves_the_inbound_path_alone() {
    let mut session = active_listener();
    session.on_input_end();
    assert_eq!(session.outbound_end(), Some(PathEnd::Finished));
    assert_eq!(session.phase(), Phase::Closed);
    assert_eq!(session.inbound_end(), None);
    assert_eq!(session.on_line(b"late"), OutboundAction::Stop);
    assert_eq!(
        session.on_inbound_chunk(&xor_cipher(b"yo", SECRET)),
        InboundAction::Deliver(b"> yo".to_vec())
    );
    session.on_outbound_error();
    assert_eq!(session.outbound_end(), Some(PathEnd::Finished));
    assert_eq!(session.secret(), Some(SECRET));
}

#[test]
fn write_error_closes_the_session() {
    let mut session = active_initiator();
    session.on_outbound_error();
    assert_eq!(session.outbound_end(), Some(PathEnd::Failed));
    assert_eq!(session.phase(), Phase::Closed);
    assert_eq!(session.on_line(b"late"), OutboundAction::Stop);
    assert_eq!(session.handshake_action(), HandshakeAction::Established(SECRET));
}

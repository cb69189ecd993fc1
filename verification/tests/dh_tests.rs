use cipher_chat::dh::{dh_compute_secret, dh_generate_keypair, dh_public_key, G, P};
use cipher_chat::modexp::mod_exp;

#[test]
fn parameters_are_the_fixed_ones() {
    assert_eq!(P, 0xD87FA3E291B4C7F3);
    assert_eq!(G, 2);
    assert_eq!(P % 2, 1);
}

#[test]
fn public_key_is_the_generator_raised_to_the_private_key() {
    assert_eq!(dh_public_key(0), 1);
    assert_eq!(dh_public_key(1), 2);
    assert_eq!(dh_public_key(0x0123456789ABCDEF), 0x82ebb0d94a57f078);
    assert_eq!(dh_public_key(0xFEDCBA9876543210), 0x8ec2d020eed25d00);
    assert_eq!(dh_public_key(77), mod_exp(G, 77, P));
}

#[test]
fn secret_is_the_peer_value_raised_to_the_private_key() {
    assert_eq!(
        dh_compute_secret(0x8ec2d020eed25d00, 0x0123456789ABCDEF),
        0x6b1a052790c369fa
    );
    assert_eq!(dh_compute_secret(12345, 0), 1);
    assert_eq!(dh_compute_secret(0, 9), 0);
}

#[test]
fn both_peers_derive_one_secret_from_fixed_private_keys() {
    let listener_private = 0x0123456789ABCDEFu64;
    let initiator_private = 0xFEDCBA9876543210u64;
    let listener_public = dh_public_key(listener_private);
    let initiator_public = dh_public_key(initiator_private);
    let at_listener = dh_compute_secret(initiator_public, listener_private);
    let at_initiator = dh_compute_secret(listener_public, initiator_private);
    assert_eq!(at_listener, at_initiator);
    assert_eq!(at_listener, 0x6b1a052790c369fa);
}

#[test]
fn exchange_commutes_over_many_private_keys() {
    let keys = [0u64, 1, 2, 3, 0xffff, 0x1122334455667788, P - 1, P, P + 1, u64::MAX];
    for a in keys {
        for b in keys {
            assert_eq!(
                dh_compute_secret(dh_public_key(a), b),
                dh_compute_secret(dh_public_key(b), a)
            );
        }
    }
}

#[test]
fn generated_pair_belongs_together() {
    for _ in 0..8 {
        let (private, public) = dh_generate_keypair();
        assert_eq!(public, dh_public_key(private));
        assert!(public < P);
    }
}

#[test]
fn generated_private_keys_vary() {
    let first = dh_generate_keypair().0;
    let mut all_equal = true;
    for _ in 0..8 {
        if dh_generate_keypair().0 != first {
            all_equal = false;
        }
    }
    assert!(!all_equal);
}

#[test]
fn two_generated_peers_agree() {
    let (a_private, a_public) = dh_generate_keypair();
    let (b_private, b_public) = dh_generate_keypair();
    assert_eq!(
        dh_compute_secret(b_public, a_private),
        dh_compute_secret(a_public, b_private)
    );
}

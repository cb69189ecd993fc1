//! Diffie-Hellman key agreement over one fixed modulus and generator.
//!
//! Each peer draws a private exponent, publishes the generator raised to it,
//! and raises the other peer's public value to its own exponent. Both arrive
//! at the generator raised to the product of the two exponents, so both hold
//! the same secret.

use crate::modexp::{lemma_pow_mod_bound, mod_exp, pow_mod};
use rand::Rng;
use vstd::arithmetic::power::*;
use vstd::prelude::*;

verus! {

/// The public modulus shared by both peers.
pub const P: u64 = 0xD87FA3E291B4C7F3;

/// The public generator shared by both peers.
pub const G: u64 = 2;

/// The public value that belongs to a private exponent: `G^private mod P`.
pub open spec fn dh_public(private: nat) -> nat {
    pow_mod(G as nat, private, P as nat)
}

/// The secret a peer derives from the other side's public value and its own
/// private exponent: `their_public^private mod P`.
pub open spec fn dh_secret(their_public: nat, private: nat) -> nat {
    pow_mod(their_public, private, P as nat)
}

/// The modulus is odd and leaves room for residues other than zero.
pub proof fn lemma_modulus_is_odd()
    ensures
        P % 2 == 1,
        P > 1,
{
}

/// The exchange commutes under any generator and any positive modulus:
/// `(g^a mod m)^b mod m == (g^b mod m)^a mod m`.
pub proof fn lemma_exchange_commutes(generator: nat, modulus: nat, a: nat, b: nat)
    requires
        modulus > 0,
    ensures
        pow_mod(pow_mod(generator, a, modulus), b, modulus) == pow_mod(
            pow_mod(generator, b, modulus),
            a,
            modulus,
        ),
{
    let g = generator as int;
    let m = modulus as int;
    lemma_pow_mod_bound(generator, a, modulus);
    lemma_pow_mod_bound(generator, b, modulus);
    // Reducing the inner power first does not change the outer power modulo m.
    lemma_pow_mod_noop(pow(g, a), b, m);
    lemma_pow_mod_noop(pow(g, b), a, m);
    // Both sides are the generator raised to the product of the exponents.
    lemma_pow_multiplies(g, a, b);
    lemma_pow_multiplies(g, b, a);
    assert(a * b == b * a) by (nonlinear_arith);
}

/// Both peers derive the same secret: the secret from `a`'s public value and
/// the exponent `b` equals the secret from `b`'s public value and the
/// exponent `a`.
pub proof fn lemma_shared_secret_agrees(a: u64, b: u64)
    ensures
        dh_secret(dh_public(a as nat), b as nat) == dh_secret(dh_public(b as nat), a as nat),
{
    lemma_exchange_commutes(G as nat, P as nat, a as nat, b as nat);
}

/// Public values and secrets are residues of `P`, so each fits a 64-bit word.
pub proof fn lemma_dh_values_fit(value: nat, private: nat)
    ensures
        dh_public(private) < P,
        dh_secret(value, private) < P,
{
    lemma_pow_mod_bound(G as nat, private, P as nat);
    lemma_pow_mod_bound(value, private, P as nat);
}

/// Draws one 64-bit value from `rand::thread_rng()` with `Rng::gen`.
///
/// Nothing is claimed of the value: every 64-bit word is a possible outcome,
/// and two calls need not agree. The generator ends the process when the
/// operating system's entropy source cannot seed it.
#[verifier::external_body]
fn random_u64() -> u64 {
    rand::thread_rng().gen::<u64>()
}

/// Computes the public value of a private exponent.
pub fn dh_public_key(private: u64) -> (public: u64)
    ensures
        public == dh_public(private as nat),
{
    mod_exp(G, private, P)
}

/// Generates an ephemeral key pair `(private, public)`.
///
/// The private exponent comes from the thread-local random generator; the
/// public value is the one that belongs to it, whichever exponent was drawn.
pub fn dh_generate_keypair() -> (pair: (u64, u64))
    ensures
        pair.1 == dh_public(pair.0 as nat),
{
    let private = random_u64();
    let public = dh_public_key(private);
    (private, public)
}

/// Derives the shared secret from the peer's public value and the local
/// private exponent.
pub fn dh_compute_secret(their_public: u64, private: u64) -> (secret: u64)
    ensures
        secret == dh_secret(their_public as nat, private as nat),
{
    mod_exp(their_public, private, P)
}

} // verus!

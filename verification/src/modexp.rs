//! Modular exponentiation on 64-bit words.

use vstd::arithmetic::div_mod::*;
use vstd::arithmetic::power::*;
use vstd::calc;
use vstd::prelude::*;

verus! {

/// `base` raised to `exp`, reduced modulo `modulus`.
pub open spec fn pow_mod(base: nat, exp: nat, modulus: nat) -> nat {
    (pow(base as int, exp) % (modulus as int)) as nat
}

/// Squaring the base halves an even exponent: `b^(2k) == (b*b)^k`.
proof fn lemma_pow_square(b: int, k: nat)
    ensures
        pow(b, 2 * k) == pow(b * b, k),
{
    lemma_square_is_pow2(b);
    lemma_pow_multiplies(b, 2, k);
}

/// One round of square-and-multiply keeps `acc * b^e` unchanged modulo `m`.
proof fn lemma_square_and_multiply_step(acc: int, b: int, e: nat, m: int)
    requires
        m > 0,
        e > 0,
    ensures
        ((if e % 2 == 1 {
            (acc * b) % m
        } else {
            acc
        }) * pow((b * b) % m, e / 2)) % m == (acc * pow(b, e)) % m,
{
    let k = e / 2;
    let sq = (b * b) % m;
    // Reducing the squared base does not change the power modulo m.
    lemma_pow_mod_noop(b * b, k, m);
    lemma_pow_square(b, k);
    if e % 2 == 1 {
        assert(e == 2 * k + 1);
        assert(pow(b, e) == b * pow(b, 2 * k)) by {
            reveal(pow);
        }
        calc! {
            (==)
            (((acc * b) % m) * pow(sq, k)) % m; {
                lemma_mul_mod_noop_general(acc * b, pow(sq, k), m);
            }
            ((acc * b) * (pow(sq, k) % m)) % m; {}
            ((acc * b) * (pow(b * b, k) % m)) % m; {
                lemma_mul_mod_noop_general(acc * b, pow(b * b, k), m);
            }
            ((acc * b) * pow(b * b, k)) % m; {
                assert((acc * b) * pow(b * b, k) == acc * (b * pow(b * b, k))) by (nonlinear_arith);
            }
            (acc * (b * pow(b * b, k))) % m; {}
            (acc * pow(b, e)) % m;
        }
    } else {
        assert(e == 2 * k);
        calc! {
            (==)
            (acc * pow(sq, k)) % m; {
                lemma_mul_mod_noop_general(acc, pow(sq, k), m);
            }
            (acc * (pow(sq, k) % m)) % m; {}
            (acc * (pow(b * b, k) % m)) % m; {
                lemma_mul_mod_noop_general(acc, pow(b * b, k), m);
            }
            (acc * pow(b * b, k)) % m; {}
            (acc * pow(b, e)) % m;
        }
    }
}

/// Any base to the power zero is 1 modulo a modulus above 1.
pub proof fn lemma_pow_mod_exp_zero(base: nat, modulus: nat)
    requires
        modulus > 1,
    ensures
        pow_mod(base, 0, modulus) == 1,
{
    lemma_pow0(base as int);
    lemma_small_mod(1, modulus);
}

/// A base to the power one is the base reduced by the modulus.
pub proof fn lemma_pow_mod_exp_one(base: nat, modulus: nat)
    requires
        modulus > 1,
    ensures
        pow_mod(base, 1, modulus) == base % modulus,
{
    lemma_pow1(base as int);
}

/// Zero to a positive power is zero under every modulus above 1.
pub proof fn lemma_pow_mod_base_zero(exp: nat, modulus: nat)
    requires
        modulus > 1,
        exp > 0,
    ensures
        pow_mod(0, exp, modulus) == 0,
{
    lemma0_pow(exp);
}

/// The result of a modular power is a residue: it lies below the modulus.
pub proof fn lemma_pow_mod_bound(base: nat, exp: nat, modulus: nat)
    requires
        modulus > 0,
    ensures
        pow_mod(base, exp, modulus) < modulus,
{
    lemma_pow_positive_or_zero(base, exp);
    lemma_mod_bound(pow(base as int, exp), modulus as int);
}

/// A natural base never yields a negative power.
proof fn lemma_pow_positive_or_zero(base: nat, exp: nat)
    ensures
        pow(base as int, exp) >= 0,
{
    if base == 0 {
        if exp == 0 {
            lemma_pow0(0);
        } else {
            lemma0_pow(exp);
        }
    } else {
        lemma_pow_positive(base as int, exp);
    }
}

/// Computes `base^exp mod modulo` by binary exponentiation.
///
/// Every product is formed in 128 bits and reduced before it is stored, so no
/// intermediate value overflows whatever the size of the modulus.
pub fn mod_exp(base: u64, exp: u64, modulo: u64) -> (result: u64)
    requires
        modulo > 1,
    ensures
        result == pow_mod(base as nat, exp as nat, modulo as nat),
        result < modulo,
        exp == 0 ==> result == 1,
        exp == 1 ==> result == base % modulo,
{
    let m: u128 = modulo as u128;
    let mut result: u64 = 1;
    let mut b: u64 = base % modulo;
    let mut e: u64 = exp;
    proof {
        lemma_pow_mod_noop(base as int, exp as nat, modulo as int);
        assert(1 * pow(b as int, e as nat) == pow(b as int, e as nat));
    }
    while e > 0
        invariant
            modulo > 1,
            m == modulo,
            b < modulo,
            result < modulo,
            (result * pow(b as int, e as nat)) % (modulo as int) == pow(base as int, exp as nat)
                % (modulo as int),
        decreases e,
    {
        proof {
            lemma_square_and_multiply_step(result as int, b as int, e as nat, modulo as int);
        }
        if e % 2 == 1 {
            assert(result as u128 * b as u128 <= u128::MAX) by (nonlinear_arith)
                requires
                    result <= u64::MAX,
                    b <= u64::MAX,
            ;
            result = ((result as u128 * b as u128) % m) as u64;
        }
        assert(b as u128 * b as u128 <= u128::MAX) by (nonlinear_arith)
            requires
                b <= u64::MAX,
        ;
        b = ((b as u128 * b as u128) % m) as u64;
        e = e / 2;
    }
    proof {
        lemma_pow0(b as int);
        assert(result * pow(b as int, 0) == result) by (nonlinear_arith)
            requires
                pow(b as int, 0) == 1,
        ;
        lemma_small_mod(result as nat, modulo as nat);
        lemma_pow_positive_or_zero(base as nat, exp as nat);
        if exp == 0 {
            lemma_pow_mod_exp_zero(base as nat, modulo as nat);
        }
        if exp == 1 {
            lemma_pow_mod_exp_one(base as nat, modulo as nat);
        }
    }
    result
}

} // verus!

use vstd::prelude::*;

verus! {

/// The irreducible polynomial x^8 + x^4 + x^3 + x + 1 that the field is built over.
pub const RIJNDAEL_MOD: u16 = 0x11b;

/// The same polynomial without its leading term.
pub const SHORT_RIJNDAEL_MOD: u8 = 0x1b;

/// Addition in GF(256): the bitwise exclusive or of the two bytes.
pub open spec fn gf_sum(a: u8, b: u8) -> u8 {
    a ^ b
}

/// The product of `a` and the polynomial `x`, reduced modulo the field polynomial.
pub open spec fn gf_times_x(a: u8) -> u8 {
    if a & 0x80 == 0x80 {
        (a << 1) ^ 0x1b
    } else {
        a << 1
    }
}

/// The sum of `b_i * x^i * a` over the lowest `n` bits `b_i` of `b`.
pub open spec fn gf_product_terms(a: u8, b: u8, n: nat) -> u8
    decreases n,
{
    if n == 0 {
        0
    } else {
        (if b & 1 == 1 { a } else { 0 }) ^ gf_product_terms(gf_times_x(a), b >> 1, (n - 1) as nat)
    }
}

/// Multiplication in GF(256): the product of the two polynomials modulo the
/// field polynomial, as the sum of `a * x^i` over the set bits `i` of `b`.
pub open spec fn gf_product(a: u8, b: u8) -> u8 {
    gf_product_terms(a, b, 8)
}

/// The multiplicative inverse of a nonzero `a`: the one byte whose product
/// with `a` is 1. Of zero it says nothing.
pub open spec fn gf_inverse(a: u8) -> u8 {
    choose|b: u8| gf_product(a, b) == 1
}

/// Division in GF(256) by a nonzero `b`: the product of `a` and the inverse of `b`.
pub open spec fn gf_quotient(a: u8, b: u8) -> u8 {
    gf_product(a, gf_inverse(b))
}

/// Adds two field elements given as bytes.
pub fn gf_add(a: u8, b: u8) -> (sum: u8)
    ensures
        sum == gf_sum(a, b),
{
    a ^ b
}

/// Multiplies two field elements given as bytes, without branching on their bits.
pub fn gf_mul(a: u8, b: u8) -> (p: u8)
    ensures
        p == gf_product(a, b),
{
    let ghost a0 = a;
    let ghost b0 = b;
    let mut a = a;
    let mut b = b;
    let mut p = 0u8;
    let ghost goal = gf_product(a0, b0);
    assert(0u8 ^ goal == goal) by (bit_vector);
    for i in 0..8u8
        invariant
            p ^ gf_product_terms(a, b, (8 - i) as nat) == goal,
    {
        let ghost rest = gf_product_terms(gf_times_x(a), b >> 1, (7 - i) as nat);
        let ghost p_before = p;
        let ghost a_before = a;
        let ghost b_before = b;
        let bit_mask = 0u8.wrapping_sub(b & 1);
        p ^= bit_mask & a;
        let carry_mask = 0u8.wrapping_sub((a >> 7) & 1);
        b >>= 1;
        a <<= 1;
        a ^= SHORT_RIJNDAEL_MOD & carry_mask;
        assert(a == gf_times_x(a_before)) by (bit_vector)
            requires
                carry_mask == 0u8.wrapping_sub((a_before >> 7) & 1),
                a == (a_before << 1) ^ (0x1bu8 & carry_mask),
        ;
        assert(p ^ rest == p_before ^ ((if b_before & 1 == 1 {
            a_before
        } else {
            0
        }) ^ rest)) by (bit_vector)
            requires
                bit_mask == 0u8.wrapping_sub(b_before & 1),
                p == p_before ^ (bit_mask & a_before),
        ;
    }
    assert(p ^ 0u8 == p) by (bit_vector);
    p
}

} // verus!

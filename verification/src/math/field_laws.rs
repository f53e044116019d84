use crate::math::galois_field::{
    gf_inverse, gf_product, gf_product_terms, gf_quotient, gf_sum, gf_times_x,
};
use vstd::prelude::*;

verus! {

/// Addition is commutative and associative, zero is its neutral element, and
/// two elements add up to zero exactly when they are equal.
pub proof fn lemma_sum_laws(a: u8, b: u8, c: u8)
    by (bit_vector)
    ensures
        gf_sum(a, b) == gf_sum(b, a),
        gf_sum(gf_sum(a, b), c) == gf_sum(a, gf_sum(b, c)),
        gf_sum(a, 0) == a,
        gf_sum(0, a) == a,
        (gf_sum(a, b) == 0) == (a == b),
{
}

/// Every element is its own additive inverse.
pub proof fn lemma_sum_with_itself(a: u8)
    by (bit_vector)
    ensures
        gf_sum(a, a) == 0,
{
}

/// One is the neutral element of multiplication, and zero absorbs.
pub proof fn lemma_product_one_zero(a: u8)
    by (bit_vector)
    ensures
        gf_product(a, 1) == a,
        gf_product(1, a) == a,
        gf_product(a, 0) == 0,
        gf_product(0, a) == 0,
{
}

/// Multiplication is commutative.
#[verifier::rlimit(100)]
pub proof fn lemma_product_commutative(a: u8, b: u8)
    by (bit_vector)
    ensures
        gf_product(a, b) == gf_product(b, a),
{
}

/// Multiplication distributes over addition in its second argument.
pub proof fn lemma_product_distributes(a: u8, b: u8, c: u8)
    by (bit_vector)
    ensures
        gf_product(a, gf_sum(b, c)) == gf_sum(gf_product(a, b), gf_product(a, c)),
{
}

/// Multiplication distributes over addition in its first argument.
pub proof fn lemma_product_distributes_left(a: u8, b: u8, c: u8)
    ensures
        gf_product(gf_sum(a, b), c) == gf_sum(gf_product(a, c), gf_product(b, c)),
{
    lemma_product_commutative(gf_sum(a, b), c);
    lemma_product_distributes(c, a, b);
    lemma_product_commutative(c, a);
    lemma_product_commutative(c, b);
}

proof fn lemma_times_x_terms(a: u8, b: u8, n: nat)
    ensures
        gf_times_x(gf_product_terms(a, b, n)) == gf_product_terms(gf_times_x(a), b, n),
    decreases n,
{
    if n == 0 {
        assert(gf_times_x(0) == 0) by (bit_vector);
    } else {
        lemma_times_x_terms(gf_times_x(a), b >> 1, (n - 1) as nat);
        let head: u8 = if b & 1 == 1 { a } else { 0 };
        let rest = gf_product_terms(gf_times_x(a), b >> 1, (n - 1) as nat);
        assert(gf_times_x(head ^ rest) == (if b & 1 == 1 { gf_times_x(a) } else { 0 })
            ^ gf_times_x(rest)) by (bit_vector)
            requires
                head == (if b & 1 == 1 { a } else { 0u8 }),
        ;
    }
}

/// Multiplying a product by `x` is multiplying either factor by `x`.
pub proof fn lemma_times_x_product(a: u8, b: u8)
    ensures
        gf_times_x(gf_product(a, b)) == gf_product(gf_times_x(a), b),
        gf_times_x(gf_product(a, b)) == gf_product(a, gf_times_x(b)),
{
    lemma_times_x_terms(a, b, 8);
    lemma_product_commutative(a, b);
    lemma_times_x_terms(b, a, 8);
    lemma_product_commutative(gf_times_x(b), a);
}

proof fn lemma_product_of_terms(a: u8, b: u8, c: u8, n: nat)
    ensures
        gf_product_terms(gf_product(a, b), c, n) == gf_product(a, gf_product_terms(b, c, n)),
    decreases n,
{
    if n == 0 {
        lemma_product_one_zero(a);
    } else {
        let rest = gf_product_terms(gf_times_x(b), c >> 1, (n - 1) as nat);
        let head: u8 = if c & 1 == 1 { b } else { 0 };
        lemma_times_x_product(a, b);
        lemma_product_of_terms(a, gf_times_x(b), c >> 1, (n - 1) as nat);
        lemma_product_distributes(a, head, rest);
        lemma_product_one_zero(a);
    }
}

/// Multiplication is associative.
pub proof fn lemma_product_associative(a: u8, b: u8, c: u8)
    ensures
        gf_product(gf_product(a, b), c) == gf_product(a, gf_product(b, c)),
{
    lemma_product_of_terms(a, b, c, 8);
}

proof fn lemma_power_254(
    a: u8,
    a2: u8,
    a4: u8,
    a8: u8,
    a16: u8,
    a32: u8,
    a64: u8,
    a128: u8,
    a6: u8,
    a14: u8,
    a30: u8,
    a62: u8,
    a126: u8,
    a254: u8,
)
    by (bit_vector)
    requires
        a != 0,
        a2 == gf_product(a, a),
        a4 == gf_product(a2, a2),
        a8 == gf_product(a4, a4),
        a16 == gf_product(a8, a8),
        a32 == gf_product(a16, a16),
        a64 == gf_product(a32, a32),
        a128 == gf_product(a64, a64),
        a6 == gf_product(a4, a2),
        a14 == gf_product(a8, a6),
        a30 == gf_product(a16, a14),
        a62 == gf_product(a32, a30),
        a126 == gf_product(a64, a62),
        a254 == gf_product(a128, a126),
    ensures
        gf_product(a, a254) == 1,
{
}

/// Every nonzero element has a multiplicative inverse.
pub proof fn lemma_inverse_exists(a: u8)
    requires
        a != 0,
    ensures
        exists|b: u8| gf_product(a, b) == 1,
{
    let a2 = gf_product(a, a);
    let a4 = gf_product(a2, a2);
    let a8 = gf_product(a4, a4);
    let a16 = gf_product(a8, a8);
    let a32 = gf_product(a16, a16);
    let a64 = gf_product(a32, a32);
    let a128 = gf_product(a64, a64);
    let a6 = gf_product(a4, a2);
    let a14 = gf_product(a8, a6);
    let a30 = gf_product(a16, a14);
    let a62 = gf_product(a32, a30);
    let a126 = gf_product(a64, a62);
    let a254 = gf_product(a128, a126);
    lemma_power_254(a, a2, a4, a8, a16, a32, a64, a128, a6, a14, a30, a62, a126, a254);
    assert(gf_product(a, a254) == 1);
}

/// The inverse of a nonzero element is nonzero, and their product is one in
/// either order.
pub proof fn lemma_inverse(a: u8)
    requires
        a != 0,
    ensures
        gf_product(a, gf_inverse(a)) == 1,
        gf_product(gf_inverse(a), a) == 1,
        gf_inverse(a) != 0,
{
    lemma_inverse_exists(a);
    lemma_product_commutative(a, gf_inverse(a));
    lemma_product_one_zero(a);
}

/// A nonzero element has only one inverse.
pub proof fn lemma_inverse_unique(a: u8, b: u8)
    requires
        gf_product(a, b) == 1,
    ensures
        a != 0,
        b == gf_inverse(a),
{
    lemma_product_one_zero(b);
    lemma_inverse(a);
    let i = gf_inverse(a);
    // b = b * (a * i) = (b * a) * i = i
    lemma_product_associative(b, a, i);
    lemma_product_commutative(b, a);
    lemma_product_one_zero(i);
}

/// A product is zero only if one of its factors is.
pub proof fn lemma_product_nonzero(a: u8, b: u8)
    requires
        a != 0,
        b != 0,
    ensures
        gf_product(a, b) != 0,
{
    if gf_product(a, b) == 0 {
        lemma_inverse(a);
        lemma_product_associative(gf_inverse(a), a, b);
        lemma_product_one_zero(b);
        lemma_product_one_zero(gf_inverse(a));
    }
}

/// Dividing a product by one of its nonzero factors gives the other.
pub proof fn lemma_quotient_cancels(a: u8, b: u8)
    requires
        b != 0,
    ensures
        gf_quotient(gf_product(a, b), b) == a,
        gf_product(gf_quotient(a, b), b) == a,
{
    lemma_inverse(b);
    lemma_product_associative(a, b, gf_inverse(b));
    lemma_product_associative(a, gf_inverse(b), b);
    lemma_product_one_zero(a);
}

/// Two products of two factors each, multiplied, may exchange their inner factors.
pub proof fn lemma_product_exchange(a: u8, b: u8, c: u8, d: u8)
    ensures
        gf_product(gf_product(a, b), gf_product(c, d)) == gf_product(
            gf_product(a, d),
            gf_product(b, c),
        ),
{
    // (a b)(c d) = a (b (c d)) = a ((b c) d) = a (d (b c)) = (a d)(b c)
    lemma_product_associative(a, b, gf_product(c, d));
    lemma_product_associative(b, c, d);
    lemma_product_commutative(gf_product(b, c), d);
    lemma_product_associative(a, d, gf_product(b, c));
}

/// In a product of three, the first two factors may change places.
pub proof fn lemma_product_swap(a: u8, b: u8, c: u8)
    ensures
        gf_product(a, gf_product(b, c)) == gf_product(b, gf_product(a, c)),
{
    lemma_product_associative(a, b, c);
    lemma_product_commutative(a, b);
    lemma_product_associative(b, a, c);
}

/// Four summands may be added up in pairs either way.
pub proof fn lemma_sum_exchange(a: u8, b: u8, c: u8, d: u8)
    by (bit_vector)
    ensures
        gf_sum(gf_sum(a, b), gf_sum(c, d)) == gf_sum(gf_sum(a, c), gf_sum(b, d)),
        gf_sum(gf_sum(a, b), gf_sum(c, d)) == gf_sum(gf_sum(a, d), gf_sum(b, c)),
{
}

/// An element that a nonzero element reproduces itself when multiplied with is one.
pub proof fn lemma_product_fixes(d: u8, q: u8)
    requires
        d != 0,
        gf_product(d, q) == d,
    ensures
        q == 1,
{
    lemma_inverse(d);
    lemma_product_associative(gf_inverse(d), d, q);
    lemma_product_one_zero(q);
}

} // verus!

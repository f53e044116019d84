use crate::math::field_laws::{
    lemma_inverse, lemma_product_associative, lemma_product_commutative,
    lemma_product_distributes, lemma_product_distributes_left, lemma_product_exchange,
    lemma_product_fixes, lemma_product_one_zero, lemma_product_swap, lemma_sum_exchange,
    lemma_sum_laws, lemma_sum_with_itself,
};
use crate::math::galois_field::{gf_inverse, gf_product, gf_quotient, gf_sum};
use crate::math::poly::{gf_power, poly_value, poly_value_terms};
use vstd::prelude::*;

verus! {

/// The factor `a / (a - b)` that a point `a` adds to the weight of a point `b`.
pub open spec fn ratio(a: u8, b: u8) -> u8 {
    gf_quotient(a, gf_sum(a, b))
}

/// The product of `ratio(xs[m], z)` over the `m` below `n` other than `skip`.
pub open spec fn weight(xs: Seq<u8>, z: u8, skip: int, n: nat) -> u8
    decreases n,
{
    if n == 0 {
        1
    } else if n - 1 == skip {
        weight(xs, z, skip, (n - 1) as nat)
    } else {
        gf_product(weight(xs, z, skip, (n - 1) as nat), ratio(xs[n - 1], z))
    }
}

/// The term of the point `j` in the interpolation at zero: its value `y`,
/// multiplied in turn by `xs[m] / (xs[m] - xs[j])` for the `m` below `n` other than `j`.
pub open spec fn basis_term(xs: Seq<u8>, j: int, y: u8, n: nat) -> u8
    decreases n,
{
    if n == 0 {
        y
    } else if n - 1 == j {
        basis_term(xs, j, y, (n - 1) as nat)
    } else {
        gf_product(basis_term(xs, j, y, (n - 1) as nat), ratio(xs[n - 1], xs[j]))
    }
}

/// The sum of the terms of the first `n` points.
pub open spec fn lagrange_terms(xs: Seq<u8>, ys: Seq<u8>, n: nat) -> u8
    decreases n,
{
    if n == 0 {
        0
    } else {
        gf_sum(
            lagrange_terms(xs, ys, (n - 1) as nat),
            basis_term(xs, n - 1, ys[n - 1], xs.len()),
        )
    }
}

/// The value at zero of the polynomial of lowest degree that takes the value
/// `ys[j]` at the point `xs[j]` for every `j`, by Lagrange's formula: the sum
/// over `j` of `ys[j]` times the product over `m != j` of `xs[m] / (xs[m] - xs[j])`.
pub open spec fn lagrange_at_zero(xs: Seq<u8>, ys: Seq<u8>) -> u8 {
    lagrange_terms(xs, ys, xs.len())
}

/// Whether no value occurs twice in the sequence.
pub open spec fn distinct(xs: Seq<u8>) -> bool {
    forall|i: int, j: int| 0 <= i < j < xs.len() ==> xs[i] != xs[j]
}

/// The sum of `f(0)`, ..., `f(n - 1)`.
pub open spec fn sum_over(f: spec_fn(int) -> u8, n: nat) -> u8
    decreases n,
{
    if n == 0 {
        0
    } else {
        gf_sum(sum_over(f, (n - 1) as nat), f(n - 1))
    }
}

/// A sum whose terms are `c * f(j) + d * g(j)` is `c` times the sum of the
/// `f(j)` plus `d` times the sum of the `g(j)`.
proof fn lemma_sum_over_combination(
    h: spec_fn(int) -> u8,
    c: u8,
    f: spec_fn(int) -> u8,
    d: u8,
    g: spec_fn(int) -> u8,
    n: nat,
)
    requires
        forall|j: int|
            0 <= j < n ==> #[trigger] h(j) == gf_sum(gf_product(c, f(j)), gf_product(d, g(j))),
    ensures
        sum_over(h, n) == gf_sum(gf_product(c, sum_over(f, n)), gf_product(d, sum_over(g, n))),
    decreases n,
{
    if n == 0 {
        lemma_product_one_zero(c);
        lemma_product_one_zero(d);
        lemma_sum_laws(0, 0, 0);
    } else {
        let m = (n - 1) as nat;
        lemma_sum_over_combination(h, c, f, d, g, m);
        let sf = sum_over(f, m);
        let sg = sum_over(g, m);
        lemma_product_distributes(c, sf, f(n - 1));
        lemma_product_distributes(d, sg, g(n - 1));
        assert(h(n - 1) == gf_sum(gf_product(c, f(n - 1)), gf_product(d, g(n - 1))));
        lemma_sum_exchange(
            gf_product(c, sf),
            gf_product(d, sg),
            gf_product(c, f(n - 1)),
            gf_product(d, g(n - 1)),
        );
    }
}

/// A sum whose terms are `c * f(j)` is `c` times the sum of the `f(j)`.
proof fn lemma_sum_over_scaled(h: spec_fn(int) -> u8, c: u8, f: spec_fn(int) -> u8, n: nat)
    requires
        forall|j: int| 0 <= j < n ==> #[trigger] h(j) == gf_product(c, f(j)),
    ensures
        sum_over(h, n) == gf_product(c, sum_over(f, n)),
    decreases n,
{
    if n == 0 {
        lemma_product_one_zero(c);
    } else {
        let m = (n - 1) as nat;
        lemma_sum_over_scaled(h, c, f, m);
        lemma_product_distributes(c, sum_over(f, m), f(n - 1));
    }
}

/// `(a - x) * (a / (a - x))` is `a`.
proof fn lemma_ratio_scaled(a: u8, x: u8)
    requires
        a != x,
    ensures
        gf_product(gf_sum(a, x), ratio(a, x)) == a,
        gf_product(gf_sum(x, a), ratio(a, x)) == a,
{
    let d = gf_sum(a, x);
    let i = gf_inverse(d);
    lemma_sum_laws(a, x, 0);
    lemma_inverse(d);
    // d (a i) = (a i) d = a (i d) = a
    lemma_product_commutative(d, gf_product(a, i));
    lemma_product_associative(a, i, d);
    lemma_product_one_zero(a);
}

/// `(a - z) * (a / (a - x)) * (z / (z - x))` is
/// `z * (a / (a - x)) + a * (z / (z - x))`.
proof fn lemma_ratio_pair(a: u8, z: u8, x: u8)
    requires
        a != x,
        z != x,
    ensures
        gf_product(gf_sum(a, z), gf_product(ratio(a, x), ratio(z, x))) == gf_sum(
            gf_product(z, ratio(a, x)),
            gf_product(a, ratio(z, x)),
        ),
{
    let ra = ratio(a, x);
    let rz = ratio(z, x);
    let da = gf_sum(a, x);
    let dz = gf_sum(z, x);
    let both = gf_product(ra, rz);
    // a - z = (a - x) + (z - x)
    lemma_sum_exchange(a, x, z, x);
    lemma_sum_with_itself(x);
    lemma_sum_laws(gf_sum(a, z), 0, 0);
    assert(gf_sum(a, z) == gf_sum(da, dz));
    lemma_product_distributes_left(da, dz, both);
    // (a - x) (ra rz) = a rz
    lemma_product_associative(da, ra, rz);
    lemma_ratio_scaled(a, x);
    // (z - x) (ra rz) = (z - x) (rz ra) = z ra
    lemma_product_commutative(ra, rz);
    lemma_product_associative(dz, rz, ra);
    lemma_ratio_scaled(z, x);
    lemma_sum_laws(gf_product(a, rz), gf_product(z, ra), 0);
}

/// A weight depends only on the points below `n`.
proof fn lemma_weight_prefix(xs: Seq<u8>, ys: Seq<u8>, z: u8, skip: int, n: nat)
    requires
        n <= xs.len(),
        n <= ys.len(),
        forall|m: int| 0 <= m < n ==> xs[m] == ys[m],
    ensures
        weight(xs, z, skip, n) == weight(ys, z, skip, n),
    decreases n,
{
    if n > 0 {
        lemma_weight_prefix(xs, ys, z, skip, (n - 1) as nat);
    }
}

/// Skipping a point that is not below `n` skips nothing.
proof fn lemma_weight_skip_outside(xs: Seq<u8>, z: u8, skip: int, n: nat)
    requires
        skip < 0 || skip >= n,
    ensures
        weight(xs, z, skip, n) == weight(xs, z, -1, n),
    decreases n,
{
    if n > 0 {
        lemma_weight_skip_outside(xs, z, skip, (n - 1) as nat);
    }
}

/// The term of a point is its value times its weight.
proof fn lemma_basis_term(xs: Seq<u8>, j: int, y: u8, n: nat)
    ensures
        basis_term(xs, j, y, n) == gf_product(y, weight(xs, xs[j], j, n)),
    decreases n,
{
    if n == 0 {
        lemma_product_one_zero(y);
    } else {
        lemma_basis_term(xs, j, y, (n - 1) as nat);
        if n - 1 != j {
            lemma_product_associative(
                y,
                weight(xs, xs[j], j, (n - 1) as nat),
                ratio(xs[n - 1], xs[j]),
            );
        }
    }
}

/// The weight of the point `j` among all the points of `xs`, times `z / (z - xs[j])`.
spec fn extended_weights(xs: Seq<u8>, z: u8) -> spec_fn(int) -> u8 {
    |j: int| gf_product(weight(xs, xs[j], j, xs.len()), ratio(z, xs[j]))
}

/// The value of the polynomial `r` at the point `j`, times the weight of that point.
spec fn weighted_values(xs: Seq<u8>, r: Seq<u8>) -> spec_fn(int) -> u8 {
    |j: int| gf_product(poly_value(r, xs[j]), weight(xs, xs[j], j, xs.len()))
}

/// `c` times `f(j)`.
spec fn scaled(c: u8, f: spec_fn(int) -> u8) -> spec_fn(int) -> u8 {
    |j: int| gf_product(c, f(j))
}

/// The weights of distinct points, together with one more point `z`, add up
/// to one: the weights that interpolate the constant polynomial 1.
proof fn lemma_weights_sum(xs: Seq<u8>, z: u8)
    requires
        distinct(xs),
        forall|m: int| 0 <= m < xs.len() ==> xs[m] != z,
    ensures
        gf_sum(sum_over(extended_weights(xs, z), xs.len()), weight(xs, z, -1, xs.len())) == 1,
    decreases xs.len(),
{
    if xs.len() == 0 {
        lemma_sum_laws(1, 0, 0);
    } else {
        let n = (xs.len() - 1) as nat;
        let front = xs.drop_last();
        let a = xs.last();
        assert(distinct(front));
        assert forall|m: int| 0 <= m < front.len() implies front[m] != a by {
            assert(xs[m] != xs[n as int]);
        }
        lemma_weights_sum(front, a);
        lemma_weights_sum(front, z);
        let fa = extended_weights(front, a);
        let fz = extended_weights(front, z);
        let sa = sum_over(fa, n);
        let sz = sum_over(fz, n);
        let wa = weight(front, a, -1, n);
        let wz = weight(front, z, -1, n);
        let h = extended_weights(xs, z);
        let d = gf_sum(a, z);
        lemma_sum_laws(a, z, 0);
        assert(d != 0);

        // d h(j) = z fa(j) + a fz(j) for the points of the front
        assert forall|j: int| 0 <= j < n implies #[trigger] scaled(d, h)(j) == gf_sum(
            gf_product(z, fa(j)),
            gf_product(a, fz(j)),
        ) by {
            let x = xs[j];
            assert(front[j] == x);
            assert(x != a) by {
                assert(xs[j] != xs[n as int]);
            }
            let w = weight(front, x, j, n);
            let ra = ratio(a, x);
            let rz = ratio(z, x);
            lemma_weight_prefix(xs, front, x, j, n);
            assert(weight(xs, x, j, xs.len()) == gf_product(w, ra));
            assert(h(j) == gf_product(gf_product(w, ra), rz));
            // d ((w ra) rz) = d (w (ra rz)) = w (d (ra rz))
            lemma_product_associative(w, ra, rz);
            lemma_product_swap(d, w, gf_product(ra, rz));
            lemma_ratio_pair(a, z, x);
            lemma_product_distributes(w, gf_product(z, ra), gf_product(a, rz));
            lemma_product_swap(w, z, ra);
            lemma_product_swap(w, a, rz);
        }
        lemma_sum_over_combination(scaled(d, h), z, fa, a, fz, n);
        lemma_sum_over_scaled(scaled(d, h), d, h, n);
        let sh = sum_over(h, n);
        assert(gf_product(d, sh) == gf_sum(gf_product(z, sa), gf_product(a, sz)));

        // the term of the point a
        let last = h(n as int);
        lemma_weight_prefix(xs, front, a, n as int, n);
        lemma_weight_skip_outside(front, a, n as int, n);
        assert(last == gf_product(wa, ratio(z, a)));
        lemma_product_swap(d, wa, ratio(z, a));
        lemma_ratio_scaled(z, a);
        lemma_product_commutative(wa, z);
        assert(gf_product(d, last) == gf_product(z, wa));

        // the weight of z itself
        let own = weight(xs, z, -1, xs.len());
        lemma_weight_prefix(xs, front, z, -1, n);
        assert(own == gf_product(wz, ratio(a, z)));
        lemma_product_swap(d, wz, ratio(a, z));
        lemma_ratio_scaled(a, z);
        lemma_product_commutative(wz, a);
        assert(gf_product(d, own) == gf_product(a, wz));

        // d (sh + last + own) = z (sa + wa) + a (sz + wz) = z + a = d
        let total = gf_sum(gf_sum(sh, last), own);
        lemma_product_distributes(d, gf_sum(sh, last), own);
        lemma_product_distributes(d, sh, last);
        lemma_product_distributes(z, sa, wa);
        lemma_product_distributes(a, sz, wz);
        lemma_product_one_zero(z);
        lemma_product_one_zero(a);
        let p = gf_product(z, sa);
        let q = gf_product(a, sz);
        let r = gf_product(z, wa);
        let s = gf_product(a, wz);
        assert(gf_sum(gf_sum(gf_sum(p, q), r), s) == gf_sum(gf_sum(p, r), gf_sum(q, s)))
            by (bit_vector);
        lemma_sum_laws(z, a, 0);
        assert(gf_product(d, total) == d);
        lemma_product_fixes(d, total);
    }
}

/// One step of Horner's rule: the value of a polynomial is its constant term
/// plus `x` times the value of the polynomial of its other coefficients.
proof fn lemma_poly_terms_split(c: Seq<u8>, x: u8, n: nat)
    requires
        1 <= n <= c.len(),
    ensures
        poly_value_terms(c, x, n) == gf_sum(
            c[0],
            gf_product(x, poly_value_terms(c.skip(1), x, (n - 1) as nat)),
        ),
    decreases n,
{
    let rest = c.skip(1);
    if n == 1 {
        lemma_product_one_zero(c[0]);
        lemma_product_one_zero(x);
        lemma_sum_laws(c[0], 0, 0);
        assert(poly_value_terms(c, x, 0) == 0);
        assert(gf_power(x, 0) == 1);
    } else {
        lemma_poly_terms_split(c, x, (n - 1) as nat);
        let lower = poly_value_terms(rest, x, (n - 2) as nat);
        let top = c[n - 1];
        let pw = gf_power(x, (n - 2) as nat);
        assert(rest[n - 2] == top);
        assert(gf_power(x, (n - 1) as nat) == gf_product(pw, x));
        assert(poly_value_terms(rest, x, (n - 1) as nat) == gf_sum(lower, gf_product(top, pw)));
        lemma_product_distributes(x, lower, gf_product(top, pw));
        // x (top pw) = top (x pw) = top (pw x)
        lemma_product_swap(x, top, pw);
        lemma_product_commutative(x, pw);
        lemma_sum_laws(c[0], gf_product(x, lower), gf_product(top, gf_product(pw, x)));
    }
}

/// The value of a polynomial with at least one coefficient, by Horner's rule.
proof fn lemma_poly_value_split(c: Seq<u8>, x: u8)
    requires
        c.len() >= 1,
    ensures
        poly_value(c, x) == gf_sum(c[0], gf_product(x, poly_value(c.skip(1), x))),
{
    lemma_poly_terms_split(c, x, c.len());
}

/// The value at zero of a polynomial is its constant term.
pub proof fn lemma_poly_value_at_zero(c: Seq<u8>)
    ensures
        poly_value(c, 0) == if c.len() == 0 {
            0
        } else {
            c[0]
        },
{
    if c.len() > 0 {
        lemma_poly_value_split(c, 0);
        lemma_product_one_zero(poly_value(c.skip(1), 0));
        lemma_sum_laws(c[0], 0, 0);
    }
}

/// The quotient of the polynomial `r` by `x - z`.
spec fn quotient_poly(r: Seq<u8>, z: u8) -> Seq<u8>
    decreases r.len(),
{
    if r.len() <= 1 {
        Seq::empty()
    } else {
        seq![poly_value(r.skip(1), z)] + quotient_poly(r.skip(1), z)
    }
}

proof fn lemma_quotient_poly_len(r: Seq<u8>, z: u8)
    ensures
        quotient_poly(r, z).len() == if r.len() == 0 {
            0
        } else {
            r.len() - 1
        },
    decreases r.len(),
{
    if r.len() > 1 {
        lemma_quotient_poly_len(r.skip(1), z);
    }
}

/// Division with remainder by `x - z`: `r(x) = r(z) + (x - z) * q(x)`.
proof fn lemma_poly_division(r: Seq<u8>, z: u8, x: u8)
    ensures
        poly_value(r, x) == gf_sum(
            poly_value(r, z),
            gf_product(gf_sum(x, z), poly_value(quotient_poly(r, z), x)),
        ),
    decreases r.len(),
{
    let d = gf_sum(x, z);
    if r.len() == 0 {
        lemma_product_one_zero(d);
        lemma_sum_laws(0, 0, 0);
    } else {
        let rest = r.skip(1);
        let ex = poly_value(rest, x);
        let ez = poly_value(rest, z);
        lemma_poly_value_split(r, x);
        lemma_poly_value_split(r, z);
        if r.len() == 1 {
            lemma_product_one_zero(d);
            lemma_product_one_zero(x);
            lemma_product_one_zero(z);
            lemma_sum_laws(r[0], 0, 0);
            assert(poly_value(quotient_poly(r, z), x) == 0);
            assert(ex == 0);
            assert(ez == 0);
        } else {
            let t = quotient_poly(r, z);
            let t_rest = quotient_poly(rest, z);
            let tx = poly_value(t_rest, x);
            assert(t.skip(1) =~= t_rest);
            assert(t[0] == ez);
            lemma_poly_value_split(t, x);
            lemma_poly_division(rest, z, x);
            // r(x) = r0 + x (ez + d tx)
            lemma_product_distributes(x, ez, gf_product(d, tx));
            // r(z) + d (ez + x tx) = (r0 + z ez) + ((x ez + z ez) + x (d tx))
            lemma_product_distributes(d, ez, gf_product(x, tx));
            lemma_product_distributes_left(x, z, ez);
            lemma_product_swap(d, x, tx);
            let r0 = r[0];
            let p = gf_product(x, ez);
            let q = gf_product(z, ez);
            let big = gf_product(x, gf_product(d, tx));
            assert(gf_sum(r0, gf_sum(p, big)) == gf_sum(gf_sum(r0, q), gf_sum(gf_sum(p, q), big)))
                by (bit_vector);
        }
    }
}

/// Lagrange's formula on the values of a polynomial with no more
/// coefficients than there are points gives the value of the polynomial at
/// zero.
proof fn lemma_weighted_values_sum(xs: Seq<u8>, r: Seq<u8>)
    requires
        distinct(xs),
        r.len() <= xs.len(),
    ensures
        sum_over(weighted_values(xs, r), xs.len()) == poly_value(r, 0),
    decreases xs.len(),
{
    if xs.len() == 0 {
    } else {
        let n = (xs.len() - 1) as nat;
        let front = xs.drop_last();
        let z = xs.last();
        let t = quotient_poly(r, z);
        lemma_quotient_poly_len(r, z);
        assert(distinct(front));
        assert forall|m: int| 0 <= m < front.len() implies front[m] != z by {
            assert(xs[m] != xs[n as int]);
        }
        lemma_weights_sum(front, z);
        lemma_weighted_values_sum(front, t);
        let f = extended_weights(front, z);
        let g = weighted_values(front, t);
        let h = weighted_values(xs, r);
        let rz = poly_value(r, z);
        let sf = sum_over(f, n);
        let wz = weight(front, z, -1, n);
        let t0 = poly_value(t, 0);

        assert forall|j: int| 0 <= j < n implies #[trigger] h(j) == gf_sum(
            gf_product(rz, f(j)),
            gf_product(z, g(j)),
        ) by {
            let x = xs[j];
            assert(front[j] == x);
            assert(x != z) by {
                assert(xs[j] != xs[n as int]);
            }
            let w = weight(front, x, j, n);
            let ratio_z = ratio(z, x);
            let tx = poly_value(t, x);
            lemma_weight_prefix(xs, front, x, j, n);
            assert(weight(xs, x, j, xs.len()) == gf_product(w, ratio_z));
            lemma_poly_division(r, z, x);
            // (rz + (x - z) tx) (w ratio) = rz (w ratio) + ((x - z) tx) (w ratio)
            lemma_product_distributes_left(
                rz,
                gf_product(gf_sum(x, z), tx),
                gf_product(w, ratio_z),
            );
            // ((x - z) tx) (w ratio) = ((x - z) ratio) (tx w) = z (tx w)
            lemma_product_exchange(gf_sum(x, z), tx, w, ratio_z);
            lemma_ratio_scaled(z, x);
        }
        lemma_sum_over_combination(h, rz, f, z, g, n);

        // the term of the point z
        lemma_weight_prefix(xs, front, z, n as int, n);
        lemma_weight_skip_outside(front, z, n as int, n);
        assert(h(n as int) == gf_product(rz, wz));

        // rz sf + z t0 + rz wz = rz (sf + wz) + z t0 = rz + z t0 = r(0)
        lemma_product_distributes(rz, sf, wz);
        lemma_product_one_zero(rz);
        lemma_poly_division(r, z, 0);
        lemma_sum_laws(z, 0, 0);
        assert(sum_over(h, n) == gf_sum(gf_product(rz, sf), gf_product(z, t0)));
        assert(poly_value(r, 0) == gf_sum(rz, gf_product(z, t0)));
        let p = gf_product(rz, sf);
        let q = gf_product(z, t0);
        let s = gf_product(rz, wz);
        assert(gf_sum(gf_sum(p, q), s) == gf_sum(gf_sum(p, s), q)) by (bit_vector);
    }
}

proof fn lemma_lagrange_terms_as_sum(xs: Seq<u8>, ys: Seq<u8>, r: Seq<u8>, n: nat)
    requires
        n <= xs.len(),
        ys.len() == xs.len(),
        forall|j: int| 0 <= j < xs.len() ==> ys[j] == poly_value(r, xs[j]),
    ensures
        lagrange_terms(xs, ys, n) == sum_over(weighted_values(xs, r), n),
    decreases n,
{
    if n > 0 {
        lemma_lagrange_terms_as_sum(xs, ys, r, (n - 1) as nat);
        lemma_basis_term(xs, n - 1, ys[n - 1], xs.len());
    }
}

/// Interpolation: where `ys` holds the values at the distinct points `xs` of
/// a polynomial that has no more coefficients than there are points,
/// Lagrange's formula gives the constant term of that polynomial.
pub proof fn lemma_lagrange_recovers(xs: Seq<u8>, ys: Seq<u8>, coefficients: Seq<u8>)
    requires
        distinct(xs),
        1 <= coefficients.len() <= xs.len(),
        ys.len() == xs.len(),
        forall|j: int| 0 <= j < xs.len() ==> ys[j] == poly_value(coefficients, xs[j]),
    ensures
        lagrange_at_zero(xs, ys) == coefficients[0],
{
    lemma_lagrange_terms_as_sum(xs, ys, coefficients, xs.len());
    lemma_weighted_values_sum(xs, coefficients);
    lemma_poly_value_at_zero(coefficients);
}

} // verus!

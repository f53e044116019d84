use crate::math::field_laws::{lemma_product_associative, lemma_product_one_zero};
use crate::math::galois_field::{gf_product, gf_sum};
use crate::math::gf::GF;
use vstd::prelude::*;

verus! {

/// `x` raised to the power `n` in GF(256).
pub open spec fn gf_power(x: u8, n: nat) -> u8
    decreases n,
{
    if n == 0 {
        1
    } else {
        gf_product(gf_power(x, (n - 1) as nat), x)
    }
}

/// The sum of `coefficients[i] * x^i` over the first `n` coefficients.
pub open spec fn poly_value_terms(coefficients: Seq<u8>, x: u8, n: nat) -> u8
    decreases n,
{
    if n == 0 {
        0
    } else {
        gf_sum(
            poly_value_terms(coefficients, x, (n - 1) as nat),
            gf_product(coefficients[n - 1], gf_power(x, (n - 1) as nat)),
        )
    }
}

/// The value at `x` of the polynomial with the given coefficients, the
/// constant term first.
pub open spec fn poly_value(coefficients: Seq<u8>, x: u8) -> u8 {
    poly_value_terms(coefficients, x, coefficients.len())
}

/// A polynomial over GF(256), its coefficients in ascending order of degree.
pub struct GfPoly {
    data: Vec<GF>,
}

impl View for GfPoly {
    type V = Seq<u8>;

    closed spec fn view(&self) -> Seq<u8> {
        Seq::new(self.data@.len(), |i: int| self.data@[i].0)
    }
}

impl GfPoly {
    /// The polynomial whose coefficients are the given bytes, the constant term first.
    pub fn new(data: &Vec<u8>) -> (poly: GfPoly)
        ensures
            poly@ == data@,
    {
        let mut elements: Vec<GF> = Vec::new();
        for i in 0..data.len()
            invariant
                elements@.len() == i,
                forall|k: int| 0 <= k < i ==> (#[trigger] elements@[k]).0 == data@[k],
        {
            elements.push(GF::new(data[i]));
        }
        let poly = GfPoly { data: elements };
        assert(poly@ =~= data@);
        poly
    }

    /// The value of the polynomial at `x`.
    pub fn apply_x(&self, x: u8) -> (value: GF)
        ensures
            value@ == poly_value(self@, x),
    {
        let mut val = GF::new(0);
        for i in 0..self.data.len()
            invariant
                val@ == poly_value_terms(self@, x, i as nat),
        {
            let mut term = self.data[i];
            proof {
                lemma_product_one_zero(term.0);
            }
            for j in 0..i
                invariant
                    i < self.data@.len(),
                    term@ == gf_product(self@[i as int], gf_power(x, j as nat)),
            {
                proof {
                    lemma_product_associative(self@[i as int], gf_power(x, j as nat), x);
                }
                term = term * GF::new(x);
            }
            val = val + term;
        }
        val
    }
}

} // verus!

use crate::err::{err, ErrKind, SsssErr};
use crate::math::field_laws::{lemma_inverse, lemma_inverse_unique};
use crate::math::galois_field::{
    gf_inverse, gf_product, gf_product_terms, gf_quotient, gf_sum, gf_times_x,
};
use std::ops::{Add, AddAssign, Mul, MulAssign, Neg, Sub};
use vstd::prelude::*;
use vstd::std_specs::ops::{AddSpecImpl, MulSpecImpl, NegSpecImpl, SubSpecImpl};

verus! {

/// The degree of the field polynomial: an element has `K` bits.
pub const K: usize = 8;

/// The field polynomial x^8 + x^4 + x^3 + x + 1 as a number.
pub const Q: u64 = 283;

/// An element of GF(256): a polynomial of degree below 8 over GF(2), bit `i`
/// of the byte being the coefficient of `x^i`.
#[derive(Copy, Clone, PartialEq, Eq, Structural, Debug)]
pub struct GF(pub u8);

impl View for GF {
    type V = u8;

    open spec fn view(&self) -> u8 {
        self.0
    }
}

/// Bit `i` of `n`.
fn extract_bit(n: u64, i: usize) -> (bit: u64)
    requires
        i < 64,
    ensures
        bit == (n >> i) & 1,
{
    (n >> i) & 1
}

impl GF {
    /// The element that the byte `val` stands for.
    pub fn new(val: u8) -> (element: GF)
        ensures
            element@ == val,
    {
        GF(val)
    }

    /// The number of elements of the field, 2^K.
    pub fn number_of_elements() -> (count: usize)
        ensures
            count == 256,
    {
        256
    }

    /// The element as a number below 256.
    pub fn value(&self) -> (val: u64)
        ensures
            val == self@,
    {
        self.0 as u64
    }
}

impl Add<GF> for GF {
    type Output = GF;

    /// The sum of the two elements.
    fn add(self, rhs: GF) -> (sum: GF)
        ensures
            sum@ == gf_sum(self@, rhs@),
    {
        GF(self.0 ^ rhs.0)
    }
}

impl AddSpecImpl<GF> for GF {
    open spec fn obeys_add_spec() -> bool {
        true
    }

    open spec fn add_req(self, rhs: GF) -> bool {
        true
    }

    open spec fn add_spec(self, rhs: GF) -> GF {
        GF(gf_sum(self.0, rhs.0))
    }
}

impl AddAssign<GF> for GF {
    /// Adds `rhs` to the element.
    fn add_assign(&mut self, rhs: GF)
        ensures
            final(self)@ == gf_sum(old(self)@, rhs@),
    {
        self.0 ^= rhs.0;
    }
}

impl Neg for GF {
    type Output = GF;

    /// The additive inverse of the element, which is the element itself.
    fn neg(self) -> (negated: GF)
        ensures
            negated == self,
    {
        self
    }
}

impl NegSpecImpl for GF {
    open spec fn obeys_neg_spec() -> bool {
        true
    }

    open spec fn neg_req(self) -> bool {
        true
    }

    open spec fn neg_spec(self) -> GF {
        self
    }
}

impl Sub<GF> for GF {
    type Output = GF;

    /// The difference of the two elements, which is their sum.
    fn sub(self, rhs: GF) -> (difference: GF)
        ensures
            difference@ == gf_sum(self@, rhs@),
    {
        GF(self.0 ^ rhs.0)
    }
}

impl SubSpecImpl<GF> for GF {
    open spec fn obeys_sub_spec() -> bool {
        true
    }

    open spec fn sub_req(self, rhs: GF) -> bool {
        true
    }

    open spec fn sub_spec(self, rhs: GF) -> GF {
        GF(gf_sum(self.0, rhs.0))
    }
}

impl Mul<GF> for GF {
    type Output = GF;

    /// The product of the two elements: for each set bit `i` of `rhs`, the
    /// element times `x^i` is added up, the element being reduced by the
    /// field polynomial whenever it reaches degree 8.
    fn mul(self, rhs: GF) -> (product: GF)
        ensures
            product@ == gf_product(self@, rhs@),
    {
        let mut a: u64 = self.0 as u64;
        let b: u64 = rhs.0 as u64;
        let mut c: u64 = 0;
        let ghost mut rest: u8 = rhs.0;
        let ghost goal = gf_product(self.0, rhs.0);
        assert(0u8 ^ goal == goal) by (bit_vector);
        assert(b >> 0usize == b) by (bit_vector);
        for i in 0..K
            invariant
                a < 256,
                c < 256,
                b < 256,
                rest as u64 == b >> i,
                goal == gf_product(self.0, rhs.0),
                (c as u8) ^ gf_product_terms(a as u8, rest, (8 - i) as nat) == goal,
        {
            let ghost a_before = a;
            let ghost c_before = c;
            let ghost tail = gf_product_terms(gf_times_x(a as u8), rest >> 1, (7 - i) as nat);
            if extract_bit(b, i) == 1 {
                c ^= a;
            }
            a <<= 1;
            if extract_bit(a, K) == 1 {
                a ^= Q;
            }
            assert(a < 256 && a as u8 == gf_times_x(a_before as u8)) by (bit_vector)
                requires
                    a_before < 256,
                    a == if ((a_before << 1) >> 8usize) & 1 == 1 {
                        (a_before << 1) ^ 283
                    } else {
                        a_before << 1
                    },
            ;
            assert(c < 256 && (c as u8) ^ tail == (c_before as u8) ^ ((if rest & 1 == 1 {
                a_before as u8
            } else {
                0
            }) ^ tail)) by (bit_vector)
                requires
                    a_before < 256,
                    c_before < 256,
                    i < 8,
                    rest as u64 == b >> i,
                    c == if (b >> i) & 1 == 1 {
                        c_before ^ a_before
                    } else {
                        c_before
                    },
            ;
            assert((rest >> 1) as u64 == b >> ((i + 1) as usize)) by (bit_vector)
                requires
                    i < 8,
                    rest as u64 == b >> i,
            ;
            proof {
                rest = rest >> 1;
            }
        }
        assert((c as u8) ^ 0u8 == c as u8) by (bit_vector);
        GF(c as u8)
    }
}

impl MulSpecImpl<GF> for GF {
    open spec fn obeys_mul_spec() -> bool {
        true
    }

    open spec fn mul_req(self, rhs: GF) -> bool {
        true
    }

    open spec fn mul_spec(self, rhs: GF) -> GF {
        GF(gf_product(self.0, rhs.0))
    }
}

impl MulAssign<GF> for GF {
    /// Multiplies the element by `rhs`.
    fn mul_assign(&mut self, rhs: GF)
        ensures
            final(self)@ == gf_product(old(self)@, rhs@),
    {
        self.0 = (*self * rhs).0;
    }
}

/// What the table of inverses holds: at the place of each nonzero element its
/// multiplicative inverse, and zero at the place of zero.
pub open spec fn inverse_table() -> Seq<u8> {
    Seq::new(
        256,
        |x: int|
            if x == 0 {
                0u8
            } else {
                gf_inverse(x as u8)
            },
    )
}

/// The table of multiplicative inverses. It is built once and then only read.
pub struct InverseLut {
    entries: Vec<GF>,
}

impl View for InverseLut {
    type V = Seq<u8>;

    closed spec fn view(&self) -> Seq<u8> {
        Seq::new(self.entries@.len(), |i: int| self.entries@[i].0)
    }
}

impl InverseLut {
    #[verifier::type_invariant]
    spec fn well_formed(self) -> bool {
        self@ == inverse_table()
    }

    /// The entry of the element `a`: its inverse, or zero for zero.
    pub fn get(&self, a: GF) -> (inverse: GF)
        ensures
            self@ == inverse_table(),
            inverse@ == inverse_table()[a@ as int],
            a@ != 0 ==> inverse@ == gf_inverse(a@) && gf_product(a@, inverse@) == 1,
    {
        proof {
            use_type_invariant(self);
            if a.0 != 0 {
                lemma_inverse(a.0);
            }
        }
        assert(self@.len() == inverse_table().len());
        assert(self.entries@.len() == 256);
        assert(self@[a.0 as int] == self.entries@[a.0 as int].0);
        self.entries[a.0 as usize]
    }
}

impl GF {
    /// Builds the table of inverses by trying, for every nonzero element, the
    /// nonzero elements in turn until the product is 1.
    pub fn get_inverse_lut() -> (lut: InverseLut)
        ensures
            lut@ == inverse_table(),
    {
        let mut entries: Vec<GF> = Vec::new();
        entries.push(GF(0));
        let mut x: usize = 1;
        while x < GF::number_of_elements()
            invariant
                1 <= x <= 256,
                entries@.len() == x,
                entries@[0].0 == 0,
                forall|k: int| 1 <= k < x ==> (#[trigger] entries@[k]).0 == gf_inverse(k as u8),
            decreases 256 - x,
        {
            let gx = GF(x as u8);
            let mut y: usize = 1;
            proof {
                lemma_inverse(x as u8);
            }
            while !(gx * GF(y as u8) == GF(1))
                invariant
                    1 <= x < 256,
                    gx.0 == x as u8,
                    1 <= y < 256,
                    forall|k: u8| 1 <= k < y ==> #[trigger] gf_product(gx.0, k) != 1,
                    gf_inverse(x as u8) != 0,
                    gf_product(x as u8, gf_inverse(x as u8)) == 1,
                decreases 256 - y,
            {
                assert(y < 255) by {
                    let v = gf_inverse(x as u8);
                    if y == 255 {
                        assert(gf_product(gx.0, v) == 1);
                    }
                }
                y += 1;
            }
            proof {
                lemma_inverse_unique(x as u8, y as u8);
            }
            entries.push(GF(y as u8));
            x += 1;
        }
        assert(Seq::new(entries@.len(), |i: int| entries@[i].0) =~= inverse_table()) by {
            assert forall|k: int| 0 <= k < 256 implies entries@[k].0 == inverse_table()[k] by {
                if k != 0 {
                    assert(entries@[k].0 == gf_inverse(k as u8));
                }
            }
        }
        InverseLut { entries }
    }

    /// The multiplicative inverse of the element, or `DivisionByZero` for zero.
    pub fn invert(self, lut: &InverseLut) -> (result: Result<GF, SsssErr>)
        ensures
            self@ == 0 ==> result == Err::<GF, SsssErr>(err(ErrKind::DivisionByZero)),
            self@ != 0 ==> result == Ok::<GF, SsssErr>(GF(gf_inverse(self@))),
            self@ != 0 ==> gf_product(self@, gf_inverse(self@)) == 1,
    {
        if self.0 == 0 {
            return Err(SsssErr::new(ErrKind::DivisionByZero));
        }
        Ok(lut.get(self))
    }

    /// The quotient of the element by `rhs`, or `DivisionByZero` where `rhs` is zero.
    pub fn div(self, rhs: GF, lut: &InverseLut) -> (result: Result<GF, SsssErr>)
        ensures
            rhs@ == 0 ==> result == Err::<GF, SsssErr>(err(ErrKind::DivisionByZero)),
            rhs@ != 0 ==> result == Ok::<GF, SsssErr>(GF(gf_quotient(self@, rhs@))),
    {
        if rhs.0 == 0 {
            return Err(SsssErr::new(ErrKind::DivisionByZero));
        }
        match rhs.invert(lut) {
            Ok(inverse) => Ok(self * inverse),
            Err(e) => Err(e),
        }
    }
}

} // verus!

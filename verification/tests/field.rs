use ssss_rs::err::ErrKind;
use ssss_rs::math::galois_field::{gf_add, gf_mul};
use ssss_rs::math::gf::GF;
use ssss_rs::math::poly::GfPoly;
use std::ops::Add;

struct TestCase {
    a: u8,
    b: u8,
    sum: u8,
    mul: u8,
}

impl TestCase {
    const fn new(a: u8, b: u8, sum: u8, mul: u8) -> Self {
        TestCase { a, b, sum, mul }
    }
}

const TESTCASES: [TestCase; 5] = [
    TestCase::new(11, 12, 7, 116),
    TestCase::new(20, 68, 80, 39),
    TestCase::new(3, 5, 6, 15),
    TestCase::new(6, 6, 0, 20),
    TestCase::new(0x53, 0xCA, 0x99, 0x1),
];

#[test]
fn test_addition() {
    for case in TESTCASES {
        assert_eq!(gf_add(case.a, case.b), case.sum);
    }
}

#[test]
fn test_multiplication() {
    for case in TESTCASES {
        assert_eq!(gf_mul(case.a, case.b), case.mul);
    }
}

#[test]
fn validate_numbers() {
    assert_eq!(GF::number_of_elements(), 2usize.pow(8));
    // value small enough, no panic
    GF::new(255);
}

#[test]
fn add() {
    assert_eq!(GF::new(3), GF::add(GF::new(1), GF::new(2)));
    assert_eq!(GF::new(0), GF::add(GF::new(1), GF::new(1)));
    assert_eq!(GF::new(0), GF::add(GF::new(2), GF::new(2)));
    assert_eq!(GF::new(0), GF::add(GF::new(3), GF::new(3)));
    assert_eq!(GF::new(0), GF::add(GF::new(255), GF::new(255)));
}

#[test]
fn poly_test_apply_x() {
    // 5 + x + 3x^2
    let poly: GfPoly = GfPoly::new(&vec![5u8, 1u8, 3u8]);

    assert_eq!(GF::new(5) + GF::new(3) + (GF::new(3) * GF::new(3) * GF::new(3)), poly.apply_x(3));
    assert_eq!(GF::new(5) + GF::new(4) + (GF::new(3) * GF::new(4) * GF::new(4)), poly.apply_x(4));
    assert_eq!(GF::new(5) + GF::new(5) + (GF::new(3) * GF::new(5) * GF::new(5)), poly.apply_x(5));
}

#[test]
fn poly_values_are_exact() {
    let poly = GfPoly::new(&vec![5u8, 1u8, 3u8]);
    let expected = [7u8, 11, 9, 49, 51, 63, 61, 205];
    for x in 1..=8u8 {
        assert_eq!(GF::new(expected[(x - 1) as usize]), poly.apply_x(x));
    }
    assert_eq!(GF::new(5), poly.apply_x(0));
}

#[test]
fn empty_polynomial_is_zero() {
    let poly = GfPoly::new(&vec![]);
    assert_eq!(GF::new(0), poly.apply_x(0));
    assert_eq!(GF::new(0), poly.apply_x(77));
}

#[test]
fn value_is_the_byte() {
    for a in 0..=255u8 {
        assert_eq!(a as u64, GF::new(a).value());
    }
}

#[test]
fn every_element_adds_to_zero_with_itself() {
    for a in 0..=255u8 {
        assert_eq!(0, gf_add(a, a));
        assert_eq!(GF::new(0), GF::new(a) + GF::new(a));
        assert_eq!(GF::new(0), GF::new(a) - GF::new(a));
        assert_eq!(GF::new(a), -GF::new(a));
    }
}

#[test]
fn subtraction_is_addition() {
    assert_eq!(GF::new(0x99), GF::new(0x53) - GF::new(0xCA));
    assert_eq!(GF::new(7), GF::new(11) - GF::new(12));
}

#[test]
fn both_multiplications_agree() {
    for a in 0..=255u8 {
        for b in 0..=255u8 {
            assert_eq!(GF::new(gf_mul(a, b)), GF::new(a) * GF::new(b));
        }
    }
}

#[test]
fn multiplication_is_commutative_and_has_one() {
    for a in 0..=255u8 {
        assert_eq!(a, gf_mul(a, 1));
        assert_eq!(0, gf_mul(a, 0));
        for b in 0..=255u8 {
            assert_eq!(gf_mul(a, b), gf_mul(b, a));
        }
    }
}

#[test]
fn every_nonzero_element_has_its_inverse() {
    let lut = GF::get_inverse_lut();
    for a in 1..=255u8 {
        let inverse = GF::new(a).invert(&lut).unwrap();
        assert_eq!(GF::new(1), GF::new(a) * inverse);
        assert_eq!(inverse, lut.get(GF::new(a)));
    }
}

#[test]
fn known_inverses() {
    let lut = GF::get_inverse_lut();
    assert_eq!(GF::new(1), GF::new(1).invert(&lut).unwrap());
    assert_eq!(GF::new(141), GF::new(2).invert(&lut).unwrap());
    assert_eq!(GF::new(246), GF::new(3).invert(&lut).unwrap());
    assert_eq!(GF::new(0xCA), GF::new(0x53).invert(&lut).unwrap());
    assert_eq!(GF::new(28), GF::new(255).invert(&lut).unwrap());
}

#[test]
fn zero_has_no_inverse() {
    let lut = GF::get_inverse_lut();
    assert_eq!(ErrKind::DivisionByZero, GF::new(0).invert(&lut).unwrap_err().kind);
}

#[test]
fn division_undoes_multiplication() {
    let lut = GF::get_inverse_lut();
    for a in 0..=255u8 {
        for b in 1..=255u8 {
            let product = GF::new(a) * GF::new(b);
            assert_eq!(GF::new(a), product.div(GF::new(b), &lut).unwrap());
        }
    }
    assert_eq!(GF::new(0x53), GF::new(1).div(GF::new(0xCA), &lut).unwrap());
}

#[test]
fn division_by_zero_is_reported() {
    let lut = GF::get_inverse_lut();
    for a in 0..=255u8 {
        assert_eq!(ErrKind::DivisionByZero, GF::new(a).div(GF::new(0), &lut).unwrap_err().kind);
    }
}

#[test]
fn assignment_operators() {
    let mut element = GF::new(0x53);
    element *= GF::new(0xCA);
    assert_eq!(GF::new(1), element);
    element += GF::new(1);
    assert_eq!(GF::new(0), element);
    element += GF::new(20);
    element *= GF::new(68);
    assert_eq!(GF::new(39), element);
}

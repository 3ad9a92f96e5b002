use stark_algebra::algebra::{xgcd, Field, FieldElement};
use stark_algebra::big::Big;
use stark_algebra::univariate::{test_colinearity, Polynomial};

fn el(field: &Field, v: u64) -> FieldElement {
    FieldElement::new(Big::from_u64(v), field.clone())
}

#[test]
fn test_field_distributivity_elements() {
    let field = Field::main();
    let a = el(&field, 123456789);
    let b = el(&field, 987654321);
    let c = el(&field, 5);
    let lhs = a.mul(&b.add(&c));
    let rhs = a.mul(&b).add(&a.mul(&c));
    assert!(lhs.eq_raw(&rhs));
}

#[test]
fn test_field_add_negate() {
    let field = Field::main();
    let a = el(&field, 424242);
    let sum = a.add(&a.neg());
    assert!(sum.is_zero());
    let zero = field.zero();
    assert!(zero.add(&zero.neg()).is_zero());
}

#[test]
fn test_field_inverse() {
    let field = Field::main();
    let a = el(&field, 123456789123456789);
    let prod = a.mul(&a.inverse());
    assert!(prod.eq_raw(&field.one()));
    let quotient = field.divide(&field.one(), &el(&field, 2));
    assert!(quotient.mul(&el(&field, 2)).is_equivalent_to(&field.one()));
}

#[test]
fn test_xgcd_bezout() {
    let x = Big::from_u64(240);
    let y = Big::from_u64(46);
    let (_a, _b, g) = xgcd(&x, &y);
    assert!(g.same_value(&Big::from_u64(2)));
}

#[test]
fn test_sample_big_endian() {
    let field = Field::main();
    let s = field.sample(&[1, 0]);
    assert!(s.eq_raw(&el(&field, 256)));
    let empty: [u8; 0] = [];
    assert!(field.sample(&empty).is_zero());
    // the generator's byte string samples back to the generator
    let gen_bytes: [u8; 16] = [
        64, 64, 251, 237, 18, 238, 71, 15, 181, 3, 143, 156, 24, 246, 247, 209,
    ];
    assert!(field.sample(&gen_bytes).eq_raw(&field.generator()));
}

#[test]
fn test_equality_notions() {
    let field = Field::main();
    let wrapped = FieldElement::new(field.p.clone(), field.clone());
    let zero = field.zero();
    // raw equality distinguishes p from 0, equivalence does not
    assert!(!wrapped.eq_raw(&zero));
    assert!(wrapped.is_equivalent_to(&zero));
}

#[test]
fn test_pow() {
    let field = Field::main();
    let two = el(&field, 2);
    assert!(two.pow_u64(10).eq_raw(&el(&field, 1024)));
    assert!(two.pow_u64(0).eq_raw(&field.one()));
    assert!(two.pow(&Big::from_u64(3)).eq_raw(&el(&field, 8)));
}

#[test]
fn test_primitive_nth_root() {
    let field = Field::main();
    let r2 = field.primitive_nth_root(2);
    let r1 = field.primitive_nth_root(1);
    // squaring the order-two root gives the order-one root
    assert!(r2.mul(&r2).is_equivalent_to(&r1));
    let r4 = field.primitive_nth_root(4);
    assert!(r4.mul(&r4).is_equivalent_to(&r2));
    // the order-one root is the multiplicative identity, the order-two root
    // its additive inverse
    assert!(r1.is_equivalent_to(&field.one()));
    let minus_one = field.zero().sub(&field.one());
    assert!(r2.is_equivalent_to(&minus_one));
    assert!(!r4.is_equivalent_to(&field.one()));
    assert!(r4.pow_u64(4).is_equivalent_to(&field.one()));
}

#[test]
fn test_polynomial_degree_and_zero() {
    let field = Field::main();
    let zero = field.zero();
    let empty = Polynomial::new(vec![]);
    assert_eq!(empty.degree(), -1);
    assert!(empty.is_zero());
    let zeros = Polynomial::new(vec![zero.clone(), zero.clone()]);
    assert_eq!(zeros.degree(), -1);
    assert!(zeros.is_zero());
    let p = Polynomial::new(vec![el(&field, 1), zero.clone(), el(&field, 3), zero.clone()]);
    assert_eq!(p.degree(), 2);
    assert!(p.leading_coefficient().eq_raw(&el(&field, 3)));
}

#[test]
fn test_polynomial_divide_by_zero_polynomial() {
    let field = Field::main();
    let a = Polynomial::new(vec![el(&field, 1), el(&field, 2)]);
    let z = Polynomial::new(vec![field.zero()]);
    assert!(Polynomial::divide(&a, &z).is_none());
    let empty = Polynomial::new(vec![]);
    assert!(Polynomial::divide(&a, &empty).is_none());
}

#[test]
fn test_polynomial_shift_scale_pow() {
    let field = Field::main();
    let p = Polynomial::new(vec![el(&field, 1), el(&field, 2), el(&field, 3)]);
    let shifted = p.shift(2);
    assert_eq!(shifted.degree(), 4);
    let expect_shift = Polynomial::new(vec![
        field.zero(),
        field.zero(),
        el(&field, 1),
        el(&field, 2),
        el(&field, 3),
    ]);
    assert!(shifted.equals(&expect_shift));

    let scaled = p.scale(&el(&field, 2));
    let expect_scale = Polynomial::new(vec![el(&field, 1), el(&field, 4), el(&field, 12)]);
    assert!(scaled.equals(&expect_scale));

    let lin = Polynomial::new(vec![el(&field, 1), el(&field, 1)]);
    let square = lin.pow(&Big::from_u64(2));
    let expect_square = Polynomial::new(vec![el(&field, 1), el(&field, 2), el(&field, 1)]);
    assert!(square.equals(&expect_square));
    let unit = lin.pow(&Big::from_u64(0));
    assert!(unit.equals(&Polynomial::new(vec![field.one()])));
}

#[test]
fn test_scenario_products() {
    // field modulus 1 + 407 * 2^119; a = 1 + 5x^2 + 2x^3, b = 2 + 2x + x^2:
    // a * (b + b) equals 2 * (a * b), and a * b divided by b is (a, 0)
    let field = Field::main();
    let a = Polynomial::new(vec![el(&field, 1), field.zero(), el(&field, 5), el(&field, 2)]);
    let b = Polynomial::new(vec![el(&field, 2), el(&field, 2), el(&field, 1)]);
    let lhs = a.mul(&b.add(&b));
    let twos = Polynomial::new(vec![el(&field, 2)]);
    let rhs = twos.mul(&a.mul(&b));
    assert!(lhs.equals(&rhs));
    let (quo, rem) = Polynomial::divide(&a.mul(&b), &b).unwrap();
    assert!(rem.is_zero());
    assert!(quo.equals(&a));
}

#[test]
fn test_scenario_interpolation() {
    // domain 1..=5 with values [5, 2, 2, 1, 5]: the interpolant matches the
    // values pointwise and has degree 4
    let field = Field::main();
    let domain: Vec<FieldElement> = (1u64..=5).map(|i| el(&field, i)).collect();
    let values: Vec<FieldElement> = [5u64, 2, 2, 1, 5].iter().map(|&v| el(&field, v)).collect();
    let poly = Polynomial::interpolate_domain(&domain, &values);
    for i in 0..5 {
        assert!(poly.evaluate(&domain[i]).eq_raw(&values[i]));
    }
    assert_eq!(poly.degree(), 4);
    let evals = poly.evaluate_domain(&domain);
    for i in 0..5 {
        assert!(evals[i].eq_raw(&values[i]));
    }
}

#[test]
fn test_colinearity_of_points() {
    let field = Field::main();
    // y = 3x + 1 at x = 1, 2, 4
    let points = vec![
        (el(&field, 1), el(&field, 4)),
        (el(&field, 2), el(&field, 7)),
        (el(&field, 4), el(&field, 13)),
    ];
    assert!(test_colinearity(&points));
    let bent = vec![
        (el(&field, 1), el(&field, 4)),
        (el(&field, 2), el(&field, 7)),
        (el(&field, 4), el(&field, 14)),
    ];
    assert!(!test_colinearity(&bent));
}

#[test]
fn test_normalized_value() {
    let field = Field::main();
    let wrapped = FieldElement::new(field.p.clone(), field.clone());
    assert_eq!(wrapped.normalized_value().limbs.len(), 0);
    let five = el(&field, 5);
    assert!(five.normalized_value().same_value(&Big::from_u64(5)));
}

#[test]
fn test_polynomial_exact_division() {
    let field = Field::main();
    let a = Polynomial::new(vec![el(&field, 1), field.zero(), el(&field, 5), el(&field, 2)]);
    let b = Polynomial::new(vec![el(&field, 2), el(&field, 2), el(&field, 1)]);
    let prod = a.mul(&b);
    let quo = prod.div(&b).unwrap();
    assert!(quo.equals(&a));
    // a polynomial that does not divide the product evenly gives no quotient
    let c = Polynomial::new(vec![el(&field, 1), el(&field, 1)]);
    assert!(prod.div(&c).is_none());
}

#[test]
fn test_xgcd_exact_coefficients() {
    // the iterative recurrences on (240, 46): quotients 5, 4, 1, 1, 2 give
    // the Bezout pair (-9, 47) for gcd 2
    let x = Big::from_u64(240);
    let y = Big::from_u64(46);
    let (a, b, g) = xgcd(&x, &y);
    assert!(g.same_value(&Big::from_u64(2)));
    assert!(a.negative && !b.negative);
    assert_eq!(a.limbs, vec![9]);
    assert_eq!(b.limbs, vec![47]);
}

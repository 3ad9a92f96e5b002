use rand::Rng;
use stark_algebra::algebra::{Field, FieldElement};
use stark_algebra::big::Big;
use stark_algebra::univariate::Polynomial;

fn contains(list: &[FieldElement], element: &FieldElement) -> bool {
    let mut i: usize = 0;
    while i < list.len() {
        if list[i].eq_raw(element) {
            return true;
        }
        i += 1;
    }
    false
}

#[test]
fn test_distributivity() {
    let field = Field::main();
    let zero = field.zero();
    let one = field.one();
    let two = FieldElement::new(Big::from_u64(2), field.clone());
    let five = FieldElement::new(Big::from_u64(5), field.clone());

    let a = Polynomial::new(vec![one.clone(), zero.clone(), five.clone(), two.clone()]);
    let b = Polynomial::new(vec![two.clone(), two.clone(), one.clone()]);
    let c = Polynomial::new(vec![
        zero.clone(),
        five.clone(),
        two.clone(),
        five.clone(),
        five.clone(),
        one.clone(),
    ]);

    let lhs = a.mul(&b.add(&c));
    let rhs = a.mul(&b).add(&a.mul(&c));
    assert!(lhs.equals(&rhs), "distributivity fails for polynomials");

    println!("univariate polynomial distributivity success \\o/");
}

#[test]
fn test_division() {
    let field = Field::main();
    let zero = field.zero();
    let one = field.one();
    let two = FieldElement::new(Big::from_u64(2), field.clone());
    let five = FieldElement::new(Big::from_u64(5), field.clone());

    let a = Polynomial::new(vec![one.clone(), zero.clone(), five.clone(), two.clone()]);
    let b = Polynomial::new(vec![two.clone(), two.clone(), one.clone()]);
    let c = Polynomial::new(vec![
        zero.clone(),
        five.clone(),
        two.clone(),
        two.clone(),
        five.clone(),
        one.clone(),
    ]);

    // a should divide a*b, quotient should be b
    let (quo, rem) = Polynomial::divide(&a.mul(&b), &a).unwrap();
    assert!(rem.is_zero(), "fail division test 1");
    assert!(quo.equals(&b), "fail division test 2");
    // b should divide a*b, quotient should be a
    let (quo, rem) = Polynomial::divide(&a.mul(&b), &b).unwrap();
    assert!(rem.is_zero(), "fail division test 3");
    println!("quo: {:?}", quo);
    println!("a: {:?}", a);
    assert!(quo.equals(&a), "fail division test 4");

    // c should not divide a*b
    let (quo, rem) = Polynomial::divide(&a.mul(&b), &c).unwrap();
    assert!(!rem.is_zero(), "fail division test 5");

    // ... but quo * c + rem == a*b
    assert!(quo.mul(&c).add(&rem).equals(&a.mul(&b)), "fail division test 6");

    println!("univariate polynomial division success \\o/");
}

#[test]
fn test_interpolate() {
    let field = Field::main();
    let zero = field.zero();
    let one = field.one();
    let two = FieldElement::new(Big::from_u64(2), field.clone());
    let five = FieldElement::new(Big::from_u64(5), field.clone());

    let values = vec![five.clone(), two.clone(), two.clone(), one.clone(), five.clone()];
    let domain: Vec<FieldElement> = (1u64..=5)
        .map(|i| FieldElement::new(Big::from_u64(i), field.clone()))
        .collect();

    let poly = Polynomial::interpolate_domain(&domain, &values);

    for i in 0..domain.len() {
        assert!(poly.evaluate(&domain[i]).eq_raw(&values[i]), "fail interpolate test 1");
    }

    // evaluation in random point is nonzero with high probability
    assert!(
        !poly
            .evaluate(&FieldElement::new(Big::from_u64(363), field.clone()))
            .eq_raw(&zero),
        "fail interpolate test 2"
    );

    assert!(poly.degree() == (domain.len() as i32 - 1), "fail interpolate test 3");

    println!("univariate polynomial interpolate success \\o/");
}

#[test]
fn test_zerofier() {
    let field = Field::main();
    let mut rng = rand::thread_rng();

    for trial in 0..100 {
        let degree: usize = rng.gen_range(1..=10);
        let mut domain: Vec<FieldElement> = Vec::new();
        while domain.len() != degree {
            let new = field.sample(&rng.gen::<[u8; 17]>());
            if !contains(&domain, &new) {
                domain.push(new);
            }
        }

        println!(
            "Trial {}: degree = {}, domain size = {}",
            trial + 1,
            degree,
            domain.len()
        );

        let zerofier = Polynomial::zerofier_domain(&domain);

        assert!(
            zerofier.degree() == degree as i32,
            "zerofier has degree {}, expected {}",
            zerofier.degree(),
            degree
        );

        for d in &domain {
            assert!(
                zerofier.evaluate(d).is_zero(),
                "zerofier does not evaluate to zero at {:?}",
                d
            );
        }

        let mut random = field.sample(&rng.gen::<[u8; 17]>());
        while contains(&domain, &random) {
            random = field.sample(&rng.gen::<[u8; 17]>());
        }

        assert!(
            !zerofier.evaluate(&random).is_zero(),
            "zerofier evaluates to zero at random point {:?}",
            random
        );
    }

    println!("univariate zerofier test success \\o/");
}

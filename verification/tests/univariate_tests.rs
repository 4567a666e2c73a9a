use prime_algebra::field::FieldElement;
use prime_algebra::field::P;
use prime_algebra::univariate::Univariate;

fn fe(v: u128) -> FieldElement {
    FieldElement::new(v)
}

fn poly(vs: &[u128]) -> Univariate {
    let mut cs = Vec::new();
    for &v in vs {
        cs.push(fe(v));
    }
    Univariate::new(cs)
}

#[test]
fn degree_of_constant_and_zero() {
    assert_eq!(poly(&[]).degree(), -1);
    assert_eq!(poly(&[0, 0]).degree(), -1);
    assert_eq!(poly(&[5]).degree(), 0);
    assert_eq!(poly(&[1, 2, 3]).degree(), 2);
    assert_eq!(poly(&[1, 0, 0]).degree(), 0);
}

#[test]
fn zero_polynomial_detection() {
    assert!(poly(&[]).is_zero());
    assert!(poly(&[0, 0, 0]).is_zero());
    assert!(!poly(&[0, 1]).is_zero());
}

#[test]
fn test_poly_addition() {
    let p = poly(&[1, 2, 3]);
    let q = poly(&[4, 5]);
    assert!(Univariate::add(&p, &q) == poly(&[5, 7, 3]));
    assert!(Univariate::add(&q, &p) == poly(&[5, 7, 3]));
}

#[test]
fn addition_zero_shortcut() {
    let p = poly(&[1, 2]);
    let z = poly(&[0, 0]);
    assert!(Univariate::add(&p, &z) == p);
    assert!(Univariate::add(&z, &p) == p);
}

#[test]
fn addition_wraps_coefficients() {
    let p = poly(&[P - 1]);
    let q = poly(&[1]);
    assert!(Univariate::add(&p, &q).is_zero());
}

#[test]
fn addition_is_associative() {
    let p = poly(&[1, 2]);
    let q = poly(&[3, 0, 4]);
    let r = poly(&[5]);
    let lhs = Univariate::add(&Univariate::add(&p, &q), &r);
    let rhs = Univariate::add(&p, &Univariate::add(&q, &r));
    assert!(lhs == rhs);
}

#[test]
fn test_poly_multiplication() {
    let p = poly(&[1, 2]);
    let q = poly(&[3, 4]);
    assert!(Univariate::multiply(&p, &q) == poly(&[3, 10, 8]));
}

#[test]
fn multiplication_by_empty_is_empty() {
    let p = poly(&[1, 2]);
    let e = poly(&[]);
    assert!(Univariate::multiply(&p, &e).is_zero());
    assert!(Univariate::multiply(&e, &p).is_zero());
}

#[test]
fn multiplication_adds_degrees() {
    let p = poly(&[1, 2]);
    let q = poly(&[0, 0, 3]);
    assert_eq!(Univariate::multiply(&p, &q).degree(), 3);
}

#[test]
fn subtraction_cancels() {
    let p = poly(&[1, 2, 3]);
    assert!(Univariate::subtract(&p, &p).is_zero());
    let q = poly(&[0, 2]);
    assert!(Univariate::subtract(&p, &q) == poly(&[1, 0, 3]));
}

#[test]
fn negation_flips_coefficients() {
    let p = poly(&[1, 0, 2]);
    assert!(Univariate::negate(&p) == poly(&[P - 1, 0, P - 2]));
}

#[test]
fn equality_ignores_trailing_zeros() {
    let p = poly(&[1, 2]);
    let q = poly(&[1, 2, 0, 0]);
    assert!(p == q);
    assert!(q == p);
    assert!(p == p);
    assert!(poly(&[3]) != poly(&[5]));
    assert!(poly(&[]) == poly(&[0, 0]));
}

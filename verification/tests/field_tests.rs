use prime_algebra::field::xgd;
use prime_algebra::field::FieldElement;
use prime_algebra::field::P;

fn fe(v: u128) -> FieldElement {
    FieldElement::new(v)
}

#[test]
fn test_add() {
    let one = FieldElement::one();
    let two = FieldElement::new(2);

    assert_eq!(FieldElement::add(&one, &two), FieldElement::new(3));

    let p_minus_one = FieldElement::new(P - 1);

    assert_eq!(FieldElement::add(&one, &p_minus_one), FieldElement::zero());
}

#[test]
fn modulus_formula() {
    assert_eq!(P, 1 + 407 * (1u128 << 119));
}

#[test]
fn add_zero_is_identity() {
    let a = fe(123456789);
    assert_eq!(FieldElement::add(&a, &FieldElement::zero()), a);
    assert_eq!(
        FieldElement::add(&FieldElement::zero(), &FieldElement::zero()),
        FieldElement::zero()
    );
}

#[test]
fn mul_one_is_identity() {
    let a = fe(987654321);
    assert_eq!(FieldElement::multiply(&a, &FieldElement::one()), a);
}

#[test]
fn add_negate_gives_zero() {
    let a = fe(424242);
    assert_eq!(
        FieldElement::add(&a, &FieldElement::negate(&a)),
        FieldElement::zero()
    );
    assert_eq!(FieldElement::negate(&FieldElement::zero()), FieldElement::zero());
}

#[test]
fn subtract_wraps_below_zero() {
    assert_eq!(FieldElement::subtract(&fe(3), &fe(5)), fe(P - 2));
    assert_eq!(FieldElement::subtract(&fe(5), &fe(3)), fe(2));
    assert_eq!(FieldElement::subtract(&fe(5), &fe(5)), FieldElement::zero());
}

#[test]
fn multiply_reduces() {
    assert_eq!(FieldElement::multiply(&fe(10), &fe(20)), fe(200));
    let big = fe(P - 1);
    assert_eq!(FieldElement::multiply(&big, &big), FieldElement::one());
}

#[test]
fn new_reduces_modulo() {
    assert!(FieldElement::new(P).is_zero());
    assert_eq!(FieldElement::new(P + 5), fe(5));
}

#[test]
fn inverse_multiplies_to_one() {
    let values = [
        2u128,
        3,
        407,
        1 << 60,
        P - 1,
        123456789012345678901234567890,
    ];
    for v in values {
        let a = fe(v);
        let w = FieldElement::inverse(&a).unwrap();
        assert_eq!(FieldElement::multiply(&a, &w), FieldElement::one());
    }
}

#[test]
fn inverse_of_zero_fails() {
    assert!(FieldElement::inverse(&FieldElement::zero()).is_none());
}

#[test]
fn divide_by_zero_fails() {
    assert!(FieldElement::divide(&fe(7), &FieldElement::zero()).is_none());
    assert!(FieldElement::divide(&FieldElement::zero(), &FieldElement::zero()).is_none());
}

#[test]
fn divide_matches_multiply_by_inverse() {
    let a = fe(10);
    let b = fe(3);
    let d = FieldElement::divide(&a, &b).unwrap();
    let w = FieldElement::inverse(&b).unwrap();
    assert_eq!(d, FieldElement::multiply(&a, &w));
    assert_eq!(FieldElement::multiply(&d, &b), a);
}

#[test]
fn exponentiate_small_cases() {
    assert_eq!(fe(2).exponentiate(10), fe(1024));
    assert_eq!(fe(7).exponentiate(0), FieldElement::one());
    assert_eq!(fe(7).exponentiate(1), fe(7));
    assert_eq!(FieldElement::zero().exponentiate(0), FieldElement::one());
    assert_eq!(FieldElement::zero().exponentiate(9), FieldElement::zero());
}

#[test]
fn exponentiate_fermat() {
    assert_eq!(fe(2).exponentiate(P - 1), FieldElement::one());
    assert_eq!(fe(3).exponentiate(P - 1), FieldElement::one());
}

#[test]
fn xgd_computes_gcd_and_bezout() {
    let (s, t, g) = xgd(12, 18);
    assert_eq!(g, 6);
    assert_eq!((s * 12) % 18, 6 % 18);
    assert_eq!((t * 18) % 12, 6 % 12);

    let (s, _t, g) = xgd(0, 9);
    assert_eq!(g, 9);
    assert_eq!(s, 0);

    let (s, t, g) = xgd(7, 0);
    assert_eq!((s, t, g), (1, 0, 7));

    let (s, _t, g) = xgd(11, 13);
    assert_eq!(g, 1);
    assert_eq!((s * 11) % 13, 1);
}

#[test]
fn equality_is_by_value() {
    assert!(FieldElement::equals(&fe(5), &fe(5)));
    assert!(!FieldElement::equals(&fe(5), &fe(6)));
    assert_eq!(fe(5), fe(5));
    assert_ne!(fe(5), fe(6));
}

#[test]
fn decimal_rendering() {
    assert_eq!(fe(0).to_decimal(), vec![b'0']);
    assert_eq!(fe(1234).to_decimal(), b"1234".to_vec());
    assert_eq!(fe(1234).to_decimal_string(), "1234");
    assert_eq!(FieldElement::zero().to_decimal_string(), "0");
    assert_eq!(
        fe(P - 1).to_decimal_string(),
        "270497897142230380135924736767050121216"
    );
}

use rateval::{EvalError, Rational};

#[test]
fn equal_values_compare_equal_in_any_form() {
    assert_eq!(Rational::new(2, 4), Rational::new(1, 2));
    assert_eq!(Rational::new(25, 30), Rational::new(5, 6));
    assert_eq!(Rational::new(0, 9).unwrap(), Rational::from_int(0));
}

#[test]
fn construction_normalises_the_sign() {
    assert_eq!(Rational::new(1, -2), Rational::new(-1, 2));
    assert_eq!(Rational::new(-1, -2), Rational::new(1, 2));
}

#[test]
fn construction_rejects_a_zero_denominator() {
    assert_eq!(Rational::new(5, 0), None);
}

#[test]
fn addition_of_halves_gives_one() {
    let a = Rational::new(1, 2).unwrap();
    assert_eq!(a.clone().add(a), Rational::from_int(1));
}

#[test]
fn negation_is_total_and_reversible() {
    let a = Rational::new(3, 5).unwrap();
    assert_eq!(a.clone().neg(), Rational::new(-3, 5).unwrap());
    assert_eq!(a.clone().neg().neg(), a);
}

#[test]
fn division_by_a_negative_keeps_the_denominator_positive() {
    let one = Rational::from_int(1);
    let minus_two = Rational::from_int(-2);
    assert_eq!(one.div(minus_two), Ok(Rational::new(-1, 2).unwrap()));
}

#[test]
fn division_by_zero_value_fails() {
    let one = Rational::from_int(1);
    let zero = Rational::from_int(0);
    assert_eq!(one.clone().div(zero.clone()), Err(EvalError::DivisionByZero));
    assert!(zero.is_zero());
    assert!(!one.is_zero());
}

#[test]
fn subtraction_can_go_negative() {
    let a = Rational::new(1, 3).unwrap();
    let b = Rational::new(1, 2).unwrap();
    assert_eq!(a.sub(b), Rational::new(-1, 6).unwrap());
}

#[test]
fn multiplication_cancels_common_factors() {
    let a = Rational::new(6, 35).unwrap();
    let b = Rational::new(7, 3).unwrap();
    assert_eq!(a.mul(b), Rational::new(2, 5).unwrap());
}

#[test]
fn power_handles_negative_bases() {
    let minus_two = Rational::from_int(-2);
    let three = Rational::from_int(3);
    assert_eq!(minus_two.clone().pow(three), Ok(Rational::from_int(-8)));
    let minus_one = Rational::from_int(-1);
    assert_eq!(
        minus_two.pow(minus_one),
        Ok(Rational::new(-1, 2).unwrap())
    );
}

#[test]
fn arithmetic_is_exact_beyond_machine_words() {
    let big = Rational::from_int(i64::MAX);
    let square = big.clone().mul(big.clone());
    assert_eq!(square.div(big.clone()), Ok(big));
    let least = Rational::from_int(i64::MIN);
    assert!(least.clone().neg().add(least).is_zero());
}

#[test]
fn canonical_text_of_fractions_and_wholes() {
    assert_eq!(Rational::new(5, 6).unwrap().to_text(), "5/6");
    assert_eq!(Rational::from_int(-7).to_text(), "-7");
    assert_eq!(Rational::approx_pi().to_text(), "355/113");
}

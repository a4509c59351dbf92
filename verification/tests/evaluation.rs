use rateval::{evaluate, resolve_identifier, EvalError, Expr, Rational};

fn lit(num: i64, den: i64) -> Expr {
    Expr::Num(Rational::new(num, den).expect("valid literal"))
}

fn whole(n: i64) -> Expr {
    Expr::Num(Rational::from_int(n))
}

#[test]
fn adds_two_fractions_exactly() {
    let e = Expr::Add(Box::new(lit(1, 2)), Box::new(lit(1, 3)));
    assert_eq!(evaluate(e), Ok(Rational::new(5, 6).unwrap()));
}

#[test]
fn subtracts_fractions_exactly() {
    let e = Expr::Sub(Box::new(lit(1, 2)), Box::new(lit(1, 3)));
    assert_eq!(evaluate(e), Ok(Rational::new(1, 6).unwrap()));
}

#[test]
fn multiplies_fractions_exactly() {
    let e = Expr::Mul(Box::new(lit(2, 3)), Box::new(lit(3, 4)));
    assert_eq!(evaluate(e), Ok(Rational::new(1, 2).unwrap()));
}

#[test]
fn divides_fractions_exactly() {
    let e = Expr::Div(Box::new(lit(1, 2)), Box::new(lit(3, 4)));
    assert_eq!(evaluate(e), Ok(Rational::new(2, 3).unwrap()));
}

#[test]
fn division_by_zero_fails() {
    let e = Expr::Div(Box::new(whole(5)), Box::new(whole(0)));
    assert_eq!(evaluate(e), Err(EvalError::DivisionByZero));
}

#[test]
fn division_by_zero_fraction_fails_regardless_of_dividend() {
    let e = Expr::Div(Box::new(lit(-7, 3)), Box::new(lit(0, 9)));
    assert_eq!(evaluate(e), Err(EvalError::DivisionByZero));
}

#[test]
fn unknown_identifier_carries_the_name() {
    let e = Expr::Ident(String::from("x"));
    match evaluate(e) {
        Err(EvalError::UnknownIdentifier(name)) => {
            assert_eq!(name, "x");
        }
        other => panic!("expected an unknown identifier error, got {:?}", other),
    }
}

#[test]
fn unknown_identifier_message_contains_the_name() {
    let e = Expr::Ident(String::from("x"));
    let err = evaluate(e).unwrap_err();
    assert_eq!(err.message(), "Unknown identifier 'x'");
}

#[test]
fn identifier_lookup_is_case_sensitive() {
    let e = Expr::Ident(String::from("Pi"));
    assert_eq!(
        evaluate(e),
        Err(EvalError::UnknownIdentifier(String::from("Pi")))
    );
}

#[test]
fn pi_resolves_to_the_same_value_every_time() {
    let first = evaluate(Expr::Ident(String::from("pi")));
    let second = evaluate(Expr::Ident(String::from("pi")));
    assert_eq!(first, second);
    assert_eq!(first, Ok(Rational::approx_pi()));
    assert_eq!(first, Ok(Rational::new(355, 113).unwrap()));
}

#[test]
fn resolve_identifier_matches_evaluate() {
    assert_eq!(resolve_identifier("pi"), Ok(Rational::approx_pi()));
    assert_eq!(
        resolve_identifier("tau"),
        Err(EvalError::UnknownIdentifier(String::from("tau")))
    );
}

#[test]
fn grouping_is_a_no_op() {
    let grouped = Expr::Parens(Box::new(lit(7, 5)));
    assert_eq!(evaluate(grouped), evaluate(lit(7, 5)));
}

#[test]
fn unary_plus_is_a_no_op() {
    let plus = Expr::UnaryPlus(Box::new(lit(-3, 4)));
    assert_eq!(evaluate(plus), evaluate(lit(-3, 4)));
}

#[test]
fn unary_minus_negates() {
    let e = Expr::UnaryMinus(Box::new(lit(3, 4)));
    assert_eq!(evaluate(e), Ok(Rational::new(-3, 4).unwrap()));
}

#[test]
fn double_negation_restores_the_value() {
    let e = Expr::UnaryMinus(Box::new(Expr::UnaryMinus(Box::new(lit(9, 7)))));
    assert_eq!(evaluate(e), evaluate(lit(9, 7)));
}

#[test]
fn apply_means_multiplication() {
    let apply = Expr::Apply(Box::new(lit(2, 1)), Box::new(lit(5, 3)));
    let mul = Expr::Mul(Box::new(lit(2, 1)), Box::new(lit(5, 3)));
    assert_eq!(evaluate(apply), evaluate(mul));
    let apply = Expr::Apply(Box::new(lit(2, 1)), Box::new(lit(5, 3)));
    assert_eq!(evaluate(apply), Ok(Rational::new(10, 3).unwrap()));
}

#[test]
fn left_error_wins_over_right_error() {
    let e = Expr::Div(
        Box::new(Expr::Ident(String::from("bad"))),
        Box::new(Expr::Ident(String::from("alsobad"))),
    );
    match evaluate(e) {
        Err(EvalError::UnknownIdentifier(name)) => assert_eq!(name, "bad"),
        other => panic!("expected an unknown identifier error, got {:?}", other),
    }
}

#[test]
fn nested_expression_evaluates_bottom_up() {
    // (1/2 + 1/3) * (6/1) = 5
    let sum = Expr::Add(Box::new(lit(1, 2)), Box::new(lit(1, 3)));
    let e = Expr::Mul(Box::new(Expr::Parens(Box::new(sum))), Box::new(whole(6)));
    assert_eq!(evaluate(e), Ok(Rational::from_int(5)));
}

#[test]
fn integer_power_evaluates_exactly() {
    let e = Expr::Pow(Box::new(whole(2)), Box::new(whole(10)));
    assert_eq!(evaluate(e), Ok(Rational::from_int(1024)));
}

#[test]
fn power_of_fraction_base() {
    let e = Expr::Pow(Box::new(lit(2, 3)), Box::new(whole(3)));
    assert_eq!(evaluate(e), Ok(Rational::new(8, 27).unwrap()));
}

#[test]
fn negative_power_inverts() {
    let e = Expr::Pow(Box::new(lit(2, 3)), Box::new(whole(-2)));
    assert_eq!(evaluate(e), Ok(Rational::new(9, 4).unwrap()));
}

#[test]
fn integer_valued_fractional_exponent_is_accepted() {
    let e = Expr::Pow(Box::new(whole(3)), Box::new(lit(4, 2)));
    assert_eq!(evaluate(e), Ok(Rational::from_int(9)));
}

#[test]
fn non_integer_exponent_fails() {
    let e = Expr::Pow(Box::new(whole(2)), Box::new(lit(1, 2)));
    assert_eq!(evaluate(e), Err(EvalError::InvalidExponent));
}

#[test]
fn zero_base_with_negative_exponent_fails() {
    let e = Expr::Pow(Box::new(whole(0)), Box::new(whole(-1)));
    assert_eq!(evaluate(e), Err(EvalError::InvalidExponent));
}

#[test]
fn zero_power_of_zero_is_one() {
    let e = Expr::Pow(Box::new(whole(0)), Box::new(whole(0)));
    assert_eq!(evaluate(e), Ok(Rational::from_int(1)));
}

#[test]
fn addition_of_huge_values_is_exact() {
    let e = Expr::Add(Box::new(whole(i64::MAX)), Box::new(whole(i64::MAX)));
    let expected = Rational::from_int(i64::MAX).add(Rational::from_int(i64::MAX));
    assert_eq!(evaluate(e), Ok(expected));
}

#[test]
fn multiplication_of_huge_values_is_exact() {
    let e = Expr::Mul(Box::new(whole(i64::MAX)), Box::new(whole(i64::MAX)));
    let big = Rational::from_int(i64::MAX);
    let square = evaluate(e).unwrap();
    assert_eq!(square.div(big.clone()), Ok(big));
}

#[test]
fn large_integer_power_is_exact() {
    let e = Expr::Pow(Box::new(whole(2)), Box::new(whole(70)));
    let result = evaluate(e).unwrap();
    let halved = result.div(Rational::from_int(2)).unwrap();
    let expected_half = Rational::from_int(2).pow(Rational::from_int(69)).unwrap();
    assert_eq!(halved, expected_half);
}

#[test]
fn oversized_exponent_is_rejected() {
    let e = Expr::Pow(Box::new(whole(1)), Box::new(whole(i64::MAX)));
    assert_eq!(evaluate(e), Err(EvalError::InvalidExponent));
}

#[test]
fn error_messages_name_each_failure() {
    assert_eq!(EvalError::DivisionByZero.message(), "Division by zero");
    assert_eq!(EvalError::InvalidExponent.message(), "Invalid exponent");
}

#[test]
fn cloned_trees_evaluate_alike() {
    let e = Expr::Add(
        Box::new(lit(1, 2)),
        Box::new(Expr::UnaryMinus(Box::new(Expr::Ident(String::from("pi"))))),
    );
    let copy = e.clone();
    assert_eq!(evaluate(copy), evaluate(e));
}

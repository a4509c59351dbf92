use rateval::{Expr, Rational};

fn whole(n: i64) -> Expr {
    Expr::Num(Rational::from_int(n))
}

#[test]
fn renders_the_representative_tree() {
    let e = Expr::Add(
        Box::new(whole(1)),
        Box::new(Expr::Mul(Box::new(whole(2)), Box::new(whole(3)))),
    );
    assert_eq!(e.render(), "(1+(2*3))");
}

#[test]
fn renders_every_binary_operator() {
    assert_eq!(
        Expr::Sub(Box::new(whole(4)), Box::new(whole(5))).render(),
        "(4-5)"
    );
    assert_eq!(
        Expr::Div(Box::new(whole(4)), Box::new(whole(5))).render(),
        "(4/5)"
    );
    assert_eq!(
        Expr::Pow(Box::new(whole(4)), Box::new(whole(5))).render(),
        "(4^5)"
    );
    assert_eq!(
        Expr::Apply(Box::new(whole(4)), Box::new(whole(5))).render(),
        "(4 5)"
    );
}

#[test]
fn renders_unary_nodes_and_grouping() {
    assert_eq!(Expr::UnaryMinus(Box::new(whole(8))).render(), "(-8)");
    assert_eq!(Expr::UnaryPlus(Box::new(whole(8))).render(), "(+8)");
    assert_eq!(Expr::Parens(Box::new(whole(8))).render(), "(8)");
}

#[test]
fn renders_identifiers_verbatim() {
    assert_eq!(Expr::Ident(String::from("pi")).render(), "pi");
    assert_eq!(Expr::Ident(String::from("zebra")).render(), "zebra");
}

#[test]
fn renders_fraction_literals_in_canonical_form() {
    let e = Expr::Num(Rational::new(-3, 4).unwrap());
    assert_eq!(e.render(), "-3/4");
    let unreduced = Expr::Num(Rational::new(14, 7).unwrap());
    assert_eq!(unreduced.render(), "14/7");
    assert_eq!(Expr::Num(Rational::from_int(2)).render(), "2");
}

#[test]
fn renders_multi_digit_numbers() {
    assert_eq!(whole(1234567890).render(), "1234567890");
    assert_eq!(whole(0).render(), "0");
    assert_eq!(whole(-10).render(), "-10");
}

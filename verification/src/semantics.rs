use vstd::prelude::*;
use crate::ast::{eval_spec, outcome_eq, render_spec, results_agree, tree_eq, Expr};
use crate::error::EvalError;
use crate::rational::{spec_pi, wf, Rational};

verus! {

/// Every rational literal in the tree has a positive denominator. Trees
/// built from `Rational` values obtained through its constructors always
/// do.
pub open spec fn tree_wf(e: Expr) -> bool
    decreases e,
{
    match e {
        Expr::Num(n) => wf(n),
        Expr::Ident(_) => true,
        Expr::Parens(x) => tree_wf(*x),
        Expr::UnaryMinus(x) => tree_wf(*x),
        Expr::UnaryPlus(x) => tree_wf(*x),
        Expr::Add(a, b) => tree_wf(*a) && tree_wf(*b),
        Expr::Sub(a, b) => tree_wf(*a) && tree_wf(*b),
        Expr::Mul(a, b) => tree_wf(*a) && tree_wf(*b),
        Expr::Div(a, b) => tree_wf(*a) && tree_wf(*b),
        Expr::Pow(a, b) => tree_wf(*a) && tree_wf(*b),
        Expr::Apply(a, b) => tree_wf(*a) && tree_wf(*b),
    }
}

/// The tree uses only rational literals, grouping, unary signs, addition,
/// subtraction and multiplication (spelled out or by juxtaposition): no
/// identifiers, no division, no exponentiation.
pub open spec fn literal_arith_only(e: Expr) -> bool
    decreases e,
{
    match e {
        Expr::Num(_) => true,
        Expr::Ident(_) => false,
        Expr::Parens(x) => literal_arith_only(*x),
        Expr::UnaryMinus(x) => literal_arith_only(*x),
        Expr::UnaryPlus(x) => literal_arith_only(*x),
        Expr::Add(a, b) => literal_arith_only(*a) && literal_arith_only(*b),
        Expr::Sub(a, b) => literal_arith_only(*a) && literal_arith_only(*b),
        Expr::Mul(a, b) => literal_arith_only(*a) && literal_arith_only(*b),
        Expr::Div(_, _) => false,
        Expr::Pow(_, _) => false,
        Expr::Apply(a, b) => literal_arith_only(*a) && literal_arith_only(*b),
    }
}

/// On well-formed trees of literals, grouping, signs, sums, differences
/// and products, evaluation never fails: it returns the mathematically
/// exact fraction, with a positive denominator.
pub proof fn lemma_literal_arithmetic_total(e: Expr)
    requires
        tree_wf(e),
        literal_arith_only(e),
    ensures
        eval_spec(e) matches Ok(m) && m.1 >= 1,
    decreases e,
{
    match e {
        Expr::Num(_) => {},
        Expr::Ident(_) => {},
        Expr::Parens(x) => {
            lemma_literal_arithmetic_total(*x);
        },
        Expr::UnaryMinus(x) => {
            lemma_literal_arithmetic_total(*x);
        },
        Expr::UnaryPlus(x) => {
            lemma_literal_arithmetic_total(*x);
        },
        Expr::Add(a, b) => {
            lemma_literal_arithmetic_total(*a);
            lemma_literal_arithmetic_total(*b);
            lemma_den_product(*a, *b);
        },
        Expr::Sub(a, b) => {
            lemma_literal_arithmetic_total(*a);
            lemma_literal_arithmetic_total(*b);
            lemma_den_product(*a, *b);
        },
        Expr::Mul(a, b) => {
            lemma_literal_arithmetic_total(*a);
            lemma_literal_arithmetic_total(*b);
            lemma_den_product(*a, *b);
        },
        Expr::Apply(a, b) => {
            lemma_literal_arithmetic_total(*a);
            lemma_literal_arithmetic_total(*b);
            lemma_den_product(*a, *b);
        },
        Expr::Div(_, _) => {},
        Expr::Pow(_, _) => {},
    }
}

/// The product of two positive denominators is positive.
proof fn lemma_den_product(a: Expr, b: Expr)
    ensures
        eval_spec(a) is Ok && eval_spec(b) is Ok ==> ({
            let p = eval_spec(a)->Ok_0;
            let q = eval_spec(b)->Ok_0;
            p.1 >= 1 && q.1 >= 1 ==> p.1 * q.1 >= 1
        }),
{
    match (eval_spec(a), eval_spec(b)) {
        (Ok(p), Ok(q)) => {
            if p.1 >= 1 && q.1 >= 1 {
                assert(p.1 * q.1 >= 1) by (nonlinear_arith)
                    requires
                        p.1 >= 1,
                        q.1 >= 1,
                {}
            }
        },
        _ => {},
    }
}

/// Grouping and explicit unary plus are semantic no-ops: evaluating the
/// wrapper is evaluating the wrapped expression.
pub proof fn lemma_grouping_noop(e: Expr)
    ensures
        e matches Expr::Parens(x) ==> eval_spec(e) == eval_spec(*x),
        e matches Expr::UnaryPlus(x) ==> eval_spec(e) == eval_spec(*x),
{
}

/// Juxtaposition means multiplication: an `Apply` node evaluates exactly
/// as the `Mul` node over the same children.
pub proof fn lemma_apply_is_multiply(ap: Expr, mu: Expr)
    requires
        ap matches Expr::Apply(a, b) && mu matches Expr::Mul(c, d) && a == c && b == d,
    ensures
        eval_spec(ap) == eval_spec(mu),
{
}

/// Negating twice gives the evaluation of the original expression back,
/// value and error alike.
pub proof fn lemma_double_negation(outer: Expr, inner: Expr, base: Expr)
    requires
        outer matches Expr::UnaryMinus(x) && *x == inner,
        inner matches Expr::UnaryMinus(y) && *y == base,
    ensures
        eval_spec(outer) == eval_spec(base),
{
    match outer {
        Expr::UnaryMinus(x) => {
            match inner {
                Expr::UnaryMinus(y) => {
                    match eval_spec(base) {
                        Ok(m) => {
                            assert(eval_spec(inner) == Ok::<(int, int), EvalError>((-m.0, m.1)));
                            assert((-(-m.0), m.1) == m);
                            assert(eval_spec(outer) == Ok::<(int, int), EvalError>(m));
                        },
                        Err(_) => {},
                    }
                },
                _ => {},
            }
        },
        _ => {},
    }
}

/// Dividing any successfully evaluated expression by an expression that
/// evaluates to the exact zero value fails with `DivisionByZero`.
pub proof fn lemma_division_by_zero(e: Expr, num: Expr, den: Expr)
    requires
        e matches Expr::Div(a, b) && *a == num && *b == den,
        eval_spec(num) is Ok,
        eval_spec(den) is Ok,
        (eval_spec(den)->Ok_0).0 == 0,
    ensures
        eval_spec(e) == Err::<(int, int), EvalError>(EvalError::DivisionByZero),
{
}

/// A name other than `pi` always fails with `UnknownIdentifier` carrying
/// that name verbatim.
pub proof fn lemma_unknown_identifier(e: Expr)
    ensures
        e matches Expr::Ident(s) ==> (s@ != "pi"@ ==> eval_spec(e) == Err::<
            (int, int),
            EvalError,
        >(EvalError::UnknownIdentifier(s))),
{
}

/// The name `pi` always resolves to the one fixed approximation value.
pub proof fn lemma_pi_resolution(e: Expr)
    ensures
        e matches Expr::Ident(s) ==> (s@ == "pi"@ ==> eval_spec(e) == Ok::<(int, int), EvalError>(
            spec_pi(),
        )),
{
}

/// Left-first short circuit: when the left child of a binary node fails,
/// the node reports exactly that error and the right child plays no part.
pub proof fn lemma_left_error_short_circuit(e: Expr)
    ensures
        e matches Expr::Add(a, b) ==> (eval_spec(*a) is Err ==> eval_spec(e) == eval_spec(*a)),
        e matches Expr::Sub(a, b) ==> (eval_spec(*a) is Err ==> eval_spec(e) == eval_spec(*a)),
        e matches Expr::Mul(a, b) ==> (eval_spec(*a) is Err ==> eval_spec(e) == eval_spec(*a)),
        e matches Expr::Div(a, b) ==> (eval_spec(*a) is Err ==> eval_spec(e) == eval_spec(*a)),
        e matches Expr::Pow(a, b) ==> (eval_spec(*a) is Err ==> eval_spec(e) == eval_spec(*a)),
        e matches Expr::Apply(a, b) ==> (eval_spec(*a) is Err ==> eval_spec(e) == eval_spec(*a)),
{
}

/// Evaluation is deterministic: any two results that agree with the
/// meaning of the same tree carry the same value or the same error.
pub proof fn lemma_evaluation_deterministic(
    e: Expr,
    r1: Result<Rational, EvalError>,
    r2: Result<Rational, EvalError>,
)
    requires
        outcome_eq(r1, eval_spec(e)),
        outcome_eq(r2, eval_spec(e)),
    ensures
        results_agree(r1, r2),
{
    match (r1, r2, eval_spec(e)) {
        (Err(x), Err(y), Err(z)) => {
            match (x, y, z) {
                (
                    EvalError::UnknownIdentifier(s1),
                    EvalError::UnknownIdentifier(s2),
                    EvalError::UnknownIdentifier(s3),
                ) => {
                    assert(s1@ == s2@);
                },
                _ => {},
            }
        },
        _ => {},
    }
}


/// Trees equal up to their leaf values have the same meaning and the same
/// rendering; in particular a clone of a tree behaves exactly as the
/// original.
pub proof fn lemma_tree_eq_same_meaning(a: Expr, b: Expr)
    requires
        tree_eq(a, b),
    ensures
        eval_spec(a) == eval_spec(b),
        render_spec(a) == render_spec(b),
    decreases a,
{
    match (a, b) {
        (Expr::Num(_), Expr::Num(_)) => {},
        (Expr::Ident(_), Expr::Ident(_)) => {},
        (Expr::Parens(x), Expr::Parens(y)) => {
            lemma_tree_eq_same_meaning(*x, *y);
        },
        (Expr::UnaryMinus(x), Expr::UnaryMinus(y)) => {
            lemma_tree_eq_same_meaning(*x, *y);
        },
        (Expr::UnaryPlus(x), Expr::UnaryPlus(y)) => {
            lemma_tree_eq_same_meaning(*x, *y);
        },
        (Expr::Add(a1, b1), Expr::Add(a2, b2)) => {
            lemma_tree_eq_same_meaning(*a1, *a2);
            lemma_tree_eq_same_meaning(*b1, *b2);
        },
        (Expr::Sub(a1, b1), Expr::Sub(a2, b2)) => {
            lemma_tree_eq_same_meaning(*a1, *a2);
            lemma_tree_eq_same_meaning(*b1, *b2);
        },
        (Expr::Mul(a1, b1), Expr::Mul(a2, b2)) => {
            lemma_tree_eq_same_meaning(*a1, *a2);
            lemma_tree_eq_same_meaning(*b1, *b2);
        },
        (Expr::Div(a1, b1), Expr::Div(a2, b2)) => {
            lemma_tree_eq_same_meaning(*a1, *a2);
            lemma_tree_eq_same_meaning(*b1, *b2);
        },
        (Expr::Pow(a1, b1), Expr::Pow(a2, b2)) => {
            lemma_tree_eq_same_meaning(*a1, *a2);
            lemma_tree_eq_same_meaning(*b1, *b2);
        },
        (Expr::Apply(a1, b1), Expr::Apply(a2, b2)) => {
            lemma_tree_eq_same_meaning(*a1, *a2);
            lemma_tree_eq_same_meaning(*b1, *b2);
        },
        _ => {},
    }
}


} // verus!

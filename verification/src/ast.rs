use vstd::prelude::*;
use crate::error::EvalError;
use crate::rational::{spec_div, spec_pi, spec_pow_val, Rational};
use vstd::string::{StringExecFns, StrSliceExecFns};

verus! {

/// A parsed arithmetic expression: a finite, immutable tree.
///
/// Leaves carry an exact rational literal or an identifier; inner nodes
/// carry one or two child expressions, owned exclusively by their parent.
/// Trees are built by a parser outside this crate and consumed by
/// [`evaluate`].
#[derive(Debug)]
pub enum Expr {
    /// An exact rational literal.
    Num(Rational),
    /// A symbolic name, resolved against the fixed identifier table.
    Ident(String),
    /// Explicit parenthesisation; kept for display fidelity, a semantic
    /// no-op.
    Parens(Box<Expr>),
    /// Unary negation.
    UnaryMinus(Box<Expr>),
    /// Explicit unary plus; a semantic no-op.
    UnaryPlus(Box<Expr>),
    /// Sum of the left and right child.
    Add(Box<Expr>, Box<Expr>),
    /// Difference of the left and right child.
    Sub(Box<Expr>, Box<Expr>),
    /// Product of the left and right child.
    Mul(Box<Expr>, Box<Expr>),
    /// Quotient of the left and right child.
    Div(Box<Expr>, Box<Expr>),
    /// The left child raised to the right child.
    Pow(Box<Expr>, Box<Expr>),
    /// Juxtaposition of two expressions: implicit multiplication, with
    /// exactly the meaning of [`Expr::Mul`].
    Apply(Box<Expr>, Box<Expr>),
}

/// Structural equality of trees up to the values of their leaves: the
/// same shape, equal rational literals and equal identifier text.
pub open spec fn tree_eq(a: Expr, b: Expr) -> bool
    decreases a,
{
    match (a, b) {
        (Expr::Num(x), Expr::Num(y)) => x@ == y@,
        (Expr::Ident(s), Expr::Ident(u)) => s == u,
        (Expr::Parens(x), Expr::Parens(y)) => tree_eq(*x, *y),
        (Expr::UnaryMinus(x), Expr::UnaryMinus(y)) => tree_eq(*x, *y),
        (Expr::UnaryPlus(x), Expr::UnaryPlus(y)) => tree_eq(*x, *y),
        (Expr::Add(a1, b1), Expr::Add(a2, b2)) => tree_eq(*a1, *a2) && tree_eq(*b1, *b2),
        (Expr::Sub(a1, b1), Expr::Sub(a2, b2)) => tree_eq(*a1, *a2) && tree_eq(*b1, *b2),
        (Expr::Mul(a1, b1), Expr::Mul(a2, b2)) => tree_eq(*a1, *a2) && tree_eq(*b1, *b2),
        (Expr::Div(a1, b1), Expr::Div(a2, b2)) => tree_eq(*a1, *a2) && tree_eq(*b1, *b2),
        (Expr::Pow(a1, b1), Expr::Pow(a2, b2)) => tree_eq(*a1, *a2) && tree_eq(*b1, *b2),
        (Expr::Apply(a1, b1), Expr::Apply(a2, b2)) => tree_eq(*a1, *a2) && tree_eq(*b1, *b2),
        _ => false,
    }
}

impl Clone for Expr {
    /// A deep copy: the same shape with equal leaves.
    fn clone(&self) -> (res: Self)
        ensures
            tree_eq(res, *self),
        decreases *self,
    {
        match self {
            Expr::Num(n) => Expr::Num(n.clone()),
            Expr::Ident(s) => Expr::Ident(s.clone()),
            Expr::Parens(x) => Expr::Parens(Box::new((**x).clone())),
            Expr::UnaryMinus(x) => Expr::UnaryMinus(Box::new((**x).clone())),
            Expr::UnaryPlus(x) => Expr::UnaryPlus(Box::new((**x).clone())),
            Expr::Add(a, b) => Expr::Add(Box::new((**a).clone()), Box::new((**b).clone())),
            Expr::Sub(a, b) => Expr::Sub(Box::new((**a).clone()), Box::new((**b).clone())),
            Expr::Mul(a, b) => Expr::Mul(Box::new((**a).clone()), Box::new((**b).clone())),
            Expr::Div(a, b) => Expr::Div(Box::new((**a).clone()), Box::new((**b).clone())),
            Expr::Pow(a, b) => Expr::Pow(Box::new((**a).clone()), Box::new((**b).clone())),
            Expr::Apply(a, b) => Expr::Apply(Box::new((**a).clone()), Box::new((**b).clone())),
        }
    }
}

/// The meaning of a tree: depth-first reduction, left child before right
/// child, over exact unbounded fractions, stopping at the first failure
/// and handing it up unchanged.
pub open spec fn eval_spec(e: Expr) -> Result<(int, int), EvalError>
    decreases e,
{
    match e {
        Expr::Num(n) => Ok(n@),
        Expr::Ident(s) => if s@ == "pi"@ {
            Ok(spec_pi())
        } else {
            Err(EvalError::UnknownIdentifier(s))
        },
        Expr::Parens(x) => eval_spec(*x),
        Expr::UnaryMinus(x) => match eval_spec(*x) {
            Ok(v) => Ok((-v.0, v.1)),
            Err(er) => Err(er),
        },
        Expr::UnaryPlus(x) => eval_spec(*x),
        Expr::Add(a, b) => match (eval_spec(*a), eval_spec(*b)) {
            (Err(er), _) => Err(er),
            (Ok(_), Err(er)) => Err(er),
            (Ok(x), Ok(y)) => Ok((x.0 * y.1 + y.0 * x.1, x.1 * y.1)),
        },
        Expr::Sub(a, b) => match (eval_spec(*a), eval_spec(*b)) {
            (Err(er), _) => Err(er),
            (Ok(_), Err(er)) => Err(er),
            (Ok(x), Ok(y)) => Ok((x.0 * y.1 - y.0 * x.1, x.1 * y.1)),
        },
        Expr::Mul(a, b) => match (eval_spec(*a), eval_spec(*b)) {
            (Err(er), _) => Err(er),
            (Ok(_), Err(er)) => Err(er),
            (Ok(x), Ok(y)) => Ok((x.0 * y.0, x.1 * y.1)),
        },
        Expr::Div(a, b) => match (eval_spec(*a), eval_spec(*b)) {
            (Err(er), _) => Err(er),
            (Ok(_), Err(er)) => Err(er),
            (Ok(x), Ok(y)) => spec_div(x, y),
        },
        Expr::Pow(a, b) => match (eval_spec(*a), eval_spec(*b)) {
            (Err(er), _) => Err(er),
            (Ok(_), Err(er)) => Err(er),
            (Ok(x), Ok(y)) => spec_pow_val(x, y),
        },
        Expr::Apply(a, b) => match (eval_spec(*a), eval_spec(*b)) {
            (Err(er), _) => Err(er),
            (Ok(_), Err(er)) => Err(er),
            (Ok(x), Ok(y)) => Ok((x.0 * y.0, x.1 * y.1)),
        },
    }
}

/// An evaluation result against its meaning: success with exactly the
/// specified fraction, or the same error.
pub open spec fn outcome_eq(a: Result<Rational, EvalError>, b: Result<(int, int), EvalError>) -> bool {
    match (a, b) {
        (Ok(v), Ok(m)) => v@ == m,
        (Err(x), Err(y)) => x.same_error(y),
        _ => false,
    }
}

/// Two evaluation results agree when both carry the same value or both
/// the same error.
pub open spec fn results_agree(a: Result<Rational, EvalError>, b: Result<Rational, EvalError>) -> bool {
    match (a, b) {
        (Ok(v), Ok(w)) => v@ == w@,
        (Err(x), Err(y)) => x.same_error(y),
        _ => false,
    }
}

/// Reduces an expression tree to its exact rational value, or to the error
/// of the first failing subexpression, exactly as [`eval_spec`] describes.
pub fn evaluate(expr: Expr) -> (res: Result<Rational, EvalError>)
    ensures
        outcome_eq(res, eval_spec(expr)),
    decreases expr,
{
    match expr {
        Expr::Num(n) => Ok(n),
        Expr::Ident(ident) => resolve_identifier(ident.as_str()),
        Expr::Parens(x) => evaluate(*x),
        Expr::UnaryMinus(x) => match evaluate(*x) {
            Ok(v) => Ok(v.neg()),
            Err(er) => Err(er),
        },
        Expr::UnaryPlus(x) => evaluate(*x),
        Expr::Add(a, b) => match evaluate(*a) {
            Err(er) => Err(er),
            Ok(x) => match evaluate(*b) {
                Err(er) => Err(er),
                Ok(y) => Ok(x.add(y)),
            },
        },
        Expr::Sub(a, b) => match evaluate(*a) {
            Err(er) => Err(er),
            Ok(x) => match evaluate(*b) {
                Err(er) => Err(er),
                Ok(y) => Ok(x.sub(y)),
            },
        },
        Expr::Mul(a, b) => match evaluate(*a) {
            Err(er) => Err(er),
            Ok(x) => match evaluate(*b) {
                Err(er) => Err(er),
                Ok(y) => Ok(x.mul(y)),
            },
        },
        Expr::Div(a, b) => match evaluate(*a) {
            Err(er) => Err(er),
            Ok(x) => match evaluate(*b) {
                Err(er) => Err(er),
                Ok(y) => x.div(y),
            },
        },
        Expr::Pow(a, b) => match evaluate(*a) {
            Err(er) => Err(er),
            Ok(x) => match evaluate(*b) {
                Err(er) => Err(er),
                Ok(y) => x.pow(y),
            },
        },
        Expr::Apply(a, b) => match evaluate(*a) {
            Err(er) => Err(er),
            Ok(x) => match evaluate(*b) {
                Err(er) => Err(er),
                Ok(y) => Ok(x.mul(y)),
            },
        },
    }
}

/// Looks a name up in the fixed identifier table: `pi` resolves to the
/// fixed approximation, every other name fails with `UnknownIdentifier`
/// carrying the name verbatim.
pub fn resolve_identifier(ident: &str) -> (res: Result<Rational, EvalError>)
    ensures
        ident@ == "pi"@ ==> (res matches Ok(v) && v@ == spec_pi()),
        ident@ != "pi"@ ==> (res matches Err(EvalError::UnknownIdentifier(s)) && s@ == ident@),
{
    let owned: String = ident.to_owned();
    let pi_name: String = String::from_str("pi");
    if owned == pi_name {
        Ok(Rational::approx_pi())
    } else {
        Err(EvalError::UnknownIdentifier(owned))
    }
}

/// The deterministic textual rendering of a tree: fully parenthesised
/// infix (or prefix, for unary nodes), for diagnostics only.
pub open spec fn render_spec(e: Expr) -> Seq<char>
    decreases e,
{
    match e {
        Expr::Num(n) => n.text(),
        Expr::Ident(s) => s@,
        Expr::Parens(x) => seq!['('] + render_spec(*x) + seq![')'],
        Expr::UnaryMinus(x) => seq!['(', '-'] + render_spec(*x) + seq![')'],
        Expr::UnaryPlus(x) => seq!['(', '+'] + render_spec(*x) + seq![')'],
        Expr::Add(a, b) => seq!['('] + render_spec(*a) + seq!['+'] + render_spec(*b) + seq![')'],
        Expr::Sub(a, b) => seq!['('] + render_spec(*a) + seq!['-'] + render_spec(*b) + seq![')'],
        Expr::Mul(a, b) => seq!['('] + render_spec(*a) + seq!['*'] + render_spec(*b) + seq![')'],
        Expr::Div(a, b) => seq!['('] + render_spec(*a) + seq!['/'] + render_spec(*b) + seq![')'],
        Expr::Pow(a, b) => seq!['('] + render_spec(*a) + seq!['^'] + render_spec(*b) + seq![')'],
        Expr::Apply(a, b) => seq!['('] + render_spec(*a) + seq![' '] + render_spec(*b) + seq![')'],
    }
}

impl Expr {
    /// Renders the tree as [`render_spec`] describes.
    pub fn render(&self) -> (r: String)
        ensures
            r@ == render_spec(*self),
        decreases *self, 1int,
    {
        match self {
            Expr::Num(n) => n.to_text(),
            Expr::Ident(s) => s.clone(),
            Expr::Parens(x) => {
                let mut s = String::new();
                s.append("(");
                let inner = (**x).render();
                s.append(inner.as_str());
                s.append(")");
                proof {
                    reveal_strlit("(");
                    reveal_strlit(")");
                    assert(s@ =~= render_spec(*self));
                }
                s
            },
            Expr::UnaryMinus(x) => {
                proof {
                    reveal_strlit("(-");
                    assert("(-"@ =~= seq!['(', '-']);
                }
                render_unary(self, x, "(-")
            },
            Expr::UnaryPlus(x) => {
                proof {
                    reveal_strlit("(+");
                    assert("(+"@ =~= seq!['(', '+']);
                }
                render_unary(self, x, "(+")
            },
            Expr::Add(a, b) => {
                proof {
                    reveal_strlit("+");
                    assert("+"@ =~= seq!['+']);
                }
                render_binary(self, a, b, "+")
            },
            Expr::Sub(a, b) => {
                proof {
                    reveal_strlit("-");
                    assert("-"@ =~= seq!['-']);
                }
                render_binary(self, a, b, "-")
            },
            Expr::Mul(a, b) => {
                proof {
                    reveal_strlit("*");
                    assert("*"@ =~= seq!['*']);
                }
                render_binary(self, a, b, "*")
            },
            Expr::Div(a, b) => {
                proof {
                    reveal_strlit("/");
                    assert("/"@ =~= seq!['/']);
                }
                render_binary(self, a, b, "/")
            },
            Expr::Pow(a, b) => {
                proof {
                    reveal_strlit("^");
                    assert("^"@ =~= seq!['^']);
                }
                render_binary(self, a, b, "^")
            },
            Expr::Apply(a, b) => {
                proof {
                    reveal_strlit(" ");
                    assert(" "@ =~= seq![' ']);
                }
                render_binary(self, a, b, " ")
            },
        }
    }
}

/// Renders a unary node from its opening text and child.
fn render_unary(whole: &Expr, x: &Box<Expr>, open_text: &str) -> (r: String)
    requires
        (*whole matches Expr::UnaryMinus(y) && y == *x && open_text@ == seq!['(', '-']) || (
        *whole matches Expr::UnaryPlus(y) && y == *x && open_text@ == seq!['(', '+']),
    ensures
        r@ == render_spec(*whole),
    decreases *whole, 0int,
{
    let mut s = String::new();
    s.append(open_text);
    let inner = (**x).render();
    s.append(inner.as_str());
    s.append(")");
    proof {
        reveal_strlit(")");
        assert(s@ =~= render_spec(*whole));
    }
    s
}

/// Renders a binary node from its children and operator text.
fn render_binary(whole: &Expr, a: &Box<Expr>, b: &Box<Expr>, op_text: &str) -> (r: String)
    requires
        (*whole matches Expr::Add(x, y) && x == *a && y == *b && op_text@ == seq!['+']) || (
        *whole matches Expr::Sub(x, y) && x == *a && y == *b && op_text@ == seq!['-']) || (
        *whole matches Expr::Mul(x, y) && x == *a && y == *b && op_text@ == seq!['*']) || (
        *whole matches Expr::Div(x, y) && x == *a && y == *b && op_text@ == seq!['/']) || (
        *whole matches Expr::Pow(x, y) && x == *a && y == *b && op_text@ == seq!['^']) || (
        *whole matches Expr::Apply(x, y) && x == *a && y == *b && op_text@ == seq![' ']),
    ensures
        r@ == render_spec(*whole),
    decreases *whole, 0int,
{
    let mut s = String::new();
    s.append("(");
    let left = (**a).render();
    s.append(left.as_str());
    s.append(op_text);
    let right = (**b).render();
    s.append(right.as_str());
    s.append(")");
    proof {
        reveal_strlit("(");
        reveal_strlit(")");
        assert(s@ =~= render_spec(*whole));
    }
    s
}

} // verus!

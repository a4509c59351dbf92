use vstd::prelude::*;
use vstd::string::{StringExecFns, StrSliceExecFns};

verus! {

/// The human-readable text of each error kind.
pub open spec fn message_spec(e: EvalError) -> Seq<char> {
    match e {
        EvalError::UnknownIdentifier(s) => "Unknown identifier '"@ + s@ + "'"@,
        EvalError::DivisionByZero => "Division by zero"@,
        EvalError::InvalidExponent => "Invalid exponent"@,
    }
}

/// Why an evaluation could not produce a value.
///
/// Every failure is terminal: the evaluator never retries or recovers, it
/// hands the error to its caller unchanged.
#[derive(Debug, Clone, PartialEq, Eq)]
pub enum EvalError {
    /// A name that the identifier table does not contain; carries the
    /// offending name verbatim.
    UnknownIdentifier(String),
    /// The right operand of a division was the exact zero value.
    DivisionByZero,
    /// An exponent outside the domain the rational type supports exactly:
    /// a non-integer exponent, one of nineteen or more decimal digits, or
    /// a negative exponent with a zero base.
    InvalidExponent,
}

impl EvalError {
    /// Two errors are the same outcome when they are the same kind and, for
    /// an unknown identifier, carry the same name.
    pub open spec fn same_error(self, other: EvalError) -> bool {
        match (self, other) {
            (EvalError::UnknownIdentifier(a), EvalError::UnknownIdentifier(b)) => a@ == b@,
            (EvalError::DivisionByZero, EvalError::DivisionByZero) => true,
            (EvalError::InvalidExponent, EvalError::InvalidExponent) => true,
            _ => false,
        }
    }

    /// The human-readable text of this error, exactly as `message_spec`
    /// describes it.
    pub fn message(&self) -> (r: String)
        ensures
            r@ == message_spec(*self),
    {
        match self {
            EvalError::UnknownIdentifier(s) => {
                let mut m = String::from_str("Unknown identifier '");
                m.append(s.as_str());
                m.append("'");
                proof {
                    assert(m@ =~= message_spec(*self));
                }
                m
            },
            EvalError::DivisionByZero => String::from_str("Division by zero"),
            EvalError::InvalidExponent => String::from_str("Invalid exponent"),
        }
    }
}

} // verus!

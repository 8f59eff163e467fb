use vstd::prelude::*;

verus! {

/// The failure modes of evaluation. Every fault aborts the whole evaluation;
/// there is no partial result.
#[derive(Debug, Clone, Copy, PartialEq, Eq, Structural)]
pub enum CalcError {
    /// A primary value was expected, but the input is exhausted or the token
    /// at the cursor is neither a number nor a left parenthesis.
    MalformedPrimary,
    /// A parenthesized sub-expression's closing token is missing, out of
    /// range, or not a right parenthesis.
    UnmatchedParenthesis,
    /// Operator application received a token that is not a recognized binary
    /// operator.
    InvalidOperator,
    /// Division by zero, a negative exponent, or a result outside `i32`.
    ArithmeticFault,
}

/// The executable scalar result `r` agrees with the mathematical result `s`:
/// same error, or the same value read at `int` width.
pub open spec fn val_agrees(r: Result<i32, CalcError>, s: Result<int, CalcError>) -> bool {
    match r {
        Ok(v) => s == Ok::<int, CalcError>(v as int),
        Err(e) => s == Err::<int, CalcError>(e),
    }
}

/// The executable (value, consumed-token count) result `r` agrees with the
/// mathematical result `s`.
pub open spec fn pair_agrees(
    r: Result<(i32, usize), CalcError>,
    s: Result<(int, nat), CalcError>,
) -> bool {
    match r {
        Ok(p) => s == Ok::<(int, nat), CalcError>((p.0 as int, p.1 as nat)),
        Err(e) => s == Err::<(int, nat), CalcError>(e),
    }
}

} // verus!

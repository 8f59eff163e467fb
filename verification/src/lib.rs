//! Integer expression evaluation by precedence climbing.
//!
//! Expressions arrive as a flat sequence of tokens; a single recursive
//! procedure folds operator precedence and associativity into its recursion
//! depth and evaluates eagerly, never building a parse tree. `calc_v1` holds
//! a reduced evaluator over addition and multiplication only; `calc_v2` the
//! full operator set with parentheses, subtraction, truncating division and
//! right-associative exponentiation. Malformed input and arithmetic faults
//! surface as explicit errors rather than panics.

pub mod arith;
pub mod calc_v1;
pub mod calc_v2;
pub mod error;

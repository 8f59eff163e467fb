use vstd::prelude::*;
use vstd::arithmetic::power::{
    pow, lemma_pow_adds, lemma_pow_increases, lemma_pow1, lemma1_pow, lemma0_pow,
};
use vstd::math::abs;
use crate::error::CalcError;

verus! {

/// The values representable in `i32`.
pub open spec fn in_i32_range(v: int) -> bool {
    i32::MIN <= v <= i32::MAX
}

/// `Ok(v)` when `v` fits in `i32`, otherwise an arithmetic fault: the
/// evaluator never wraps or saturates.
pub open spec fn spec_check_range(v: int) -> Result<int, CalcError> {
    if in_i32_range(v) {
        Ok(v)
    } else {
        Err(CalcError::ArithmeticFault)
    }
}

/// Integer division truncating toward zero: the quotient of the magnitudes,
/// carrying the sign of the exact quotient.
pub open spec fn spec_trunc_div(x: int, d: int) -> int
    recommends
        d != 0,
{
    if x == 0 {
        0
    } else if x > 0 && d > 0 {
        x / d
    } else if x < 0 && d < 0 {
        (x * -1) / (d * -1)
    } else if x < 0 {
        ((x * -1) / d) * -1
    } else {
        (x / (d * -1)) * -1
    }
}

/// The magnitude of a power is the power of the magnitude.
proof fn lemma_pow_abs(b: int, e: nat)
    ensures
        abs(pow(b, e)) == pow(abs(b) as int, e),
    decreases e,
{
    reveal(pow);
    if e > 0 {
        lemma_pow_abs(b, (e - 1) as nat);
        assert(abs(b * pow(b, (e - 1) as nat)) == abs(b) * abs(pow(b, (e - 1) as nat)))
            by (nonlinear_arith);
    }
}

/// Once a power leaves the `i32` range, every higher power of the same base
/// stays outside it.
proof fn lemma_pow_overflow_persists(b: int, i: nat, e: nat)
    requires
        i + 1 <= e,
        !in_i32_range(pow(b, i + 1)),
    ensures
        !in_i32_range(pow(b, e)),
{
    lemma_pow_abs(b, i + 1);
    lemma_pow_abs(b, e);
    let m = abs(b);
    // A power outside the range has magnitude at least 2^31, which forces a
    // base of magnitude at least 2.
    assert(abs(pow(b, i + 1)) >= 0x8000_0000);
    if m <= 1 {
        if m == 0 {
            lemma0_pow(i + 1);
        } else {
            lemma1_pow(i + 1);
        }
        assert(false);
    }
    if e == i + 1 {
    } else {
        let k = (e - i - 1) as nat;
        lemma_pow_adds(m as int, i + 1, k);
        lemma_pow_increases(m, 1, k);
        lemma_pow1(m as int);
        assert(pow(m as int, k) >= 2);
        assert(pow(m as int, i + 1) * pow(m as int, k) >= 0x8000_0000 * 2) by (nonlinear_arith)
            requires
                pow(m as int, i + 1) >= 0x8000_0000,
                pow(m as int, k) >= 2,
        ;
    }
}

/// `i32` exponentiation by repeated multiplication; `Some` exactly when the
/// mathematical power fits in `i32`.
pub fn pow_i32(base: i32, exp: u32) -> (r: Option<i32>)
    ensures
        match r {
            Some(v) => in_i32_range(pow(base as int, exp as nat)) && v as int == pow(
                base as int,
                exp as nat,
            ),
            None => !in_i32_range(pow(base as int, exp as nat)),
        },
{
    proof {
        reveal(pow);
    }
    let mut acc: i32 = 1;
    let mut i: u32 = 0;
    while i < exp
        invariant
            i <= exp,
            acc as int == pow(base as int, i as nat),
        decreases exp - i,
    {
        proof {
            reveal(pow);
            assert(pow(base as int, (i + 1) as nat) == base as int * pow(base as int, i as nat));
            assert(base as int * pow(base as int, i as nat) == pow(base as int, i as nat)
                * base as int) by (nonlinear_arith);
        }
        match acc.checked_mul(base) {
            Some(next) => {
                acc = next;
                i = i + 1;
            },
            None => {
                proof {
                    lemma_pow_overflow_persists(base as int, i as nat, exp as nat);
                }
                return None;
            },
        }
    }
    Some(acc)
}

} // verus!

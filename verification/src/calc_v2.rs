use vstd::prelude::*;
use vstd::arithmetic::power::pow;
use crate::arith::{pow_i32, spec_check_range, spec_trunc_div};
use crate::error::{CalcError, pair_agrees, val_agrees};

verus! {

/// A token of the full grammar: number literals, the binary operators, and
/// parentheses.
#[derive(Debug, PartialEq, Eq, Structural, Clone, Copy)]
pub enum Token {
    Number(i32),
    Plus,
    Multiply,
    Minus,
    Divide,
    Power,
    LeftParen,
    RightParen,
}

/// The full evaluator: precedence climbing over three operator tiers, with
/// parenthesized sub-expressions and right-associative exponentiation.
pub struct CalcV2;

impl CalcV2 {
    /// The precedence rank of a token: `Plus`/`Minus` 1, `Multiply`/`Divide`
    /// 2, `Power` 3. Non-operator tokens get the sentinel rank 0, strictly
    /// below every real operator, so the climbing loop treats "not an
    /// operator" and "too-low precedence" identically.
    pub open spec fn spec_precedence(token: Token) -> int {
        match token {
            Token::Plus | Token::Minus => 1,
            Token::Multiply | Token::Divide => 2,
            Token::Power => 3,
            _ => 0,
        }
    }

    /// Exponentiation is the one right-associative operator.
    pub open spec fn spec_is_right_associative(token: Token) -> bool {
        token is Power
    }

    /// Operator application at mathematical width, checked against `i32`:
    /// division truncates toward zero and rejects a zero divisor; a negative
    /// exponent is a fault; any non-operator token is an internal fault.
    pub open spec fn spec_apply_op(op: Token, lhs: int, rhs: int) -> Result<int, CalcError> {
        match op {
            Token::Plus => spec_check_range(lhs + rhs),
            Token::Minus => spec_check_range(lhs - rhs),
            Token::Multiply => spec_check_range(lhs * rhs),
            Token::Divide => if rhs == 0 {
                Err(CalcError::ArithmeticFault)
            } else {
                spec_check_range(spec_trunc_div(lhs, rhs))
            },
            Token::Power => if rhs < 0 {
                Err(CalcError::ArithmeticFault)
            } else {
                spec_check_range(pow(lhs, rhs as nat))
            },
            _ => Err(CalcError::InvalidOperator),
        }
    }

    /// One primary value starting at the head of `tokens`: a number literal
    /// consuming one token, or a parenthesized sub-expression whose closing
    /// token must stand immediately after the recursed sub-expression.
    pub open spec fn spec_parse_primary(tokens: Seq<Token>) -> Result<(int, nat), CalcError>
        decreases tokens.len(), 1int,
    {
        if tokens.len() == 0 {
            Err(CalcError::MalformedPrimary)
        } else {
            match tokens[0] {
                Token::Number(n) => Ok((n as int, 1nat)),
                Token::LeftParen => match Self::spec_parse_expression(
                    tokens.subrange(1, tokens.len() as int),
                    0,
                ) {
                    Err(e) => Err(e),
                    Ok((value, inner)) => if inner + 1 >= tokens.len() || !(tokens[inner as int
                        + 1] is RightParen) {
                        Err(CalcError::UnmatchedParenthesis)
                    } else {
                        Ok((value, inner + 2))
                    },
                },
                _ => Err(CalcError::MalformedPrimary),
            }
        }
    }

    /// The longest expression starting at the head of `tokens` whose leading
    /// operators all rank at least `min_precedence`; yields its value and the
    /// count of tokens consumed.
    pub open spec fn spec_parse_expression(tokens: Seq<Token>, min_precedence: int) -> Result<
        (int, nat),
        CalcError,
    >
        decreases tokens.len(), 2int,
    {
        match Self::spec_parse_primary(tokens) {
            Err(e) => Err(e),
            Ok((lhs, pos)) => Self::spec_climb(tokens, min_precedence, lhs, pos),
        }
    }

    /// The climbing loop: starting from the accumulated value `lhs` with the
    /// cursor at `pos`, bind every operator ranking at least
    /// `min_precedence`. A left-associative operator recurses with its rank
    /// + 1, so equal-rank neighbors fold left-to-right; a right-associative
    /// one reuses its own rank, folding right-to-left. A sentinel-ranked
    /// token — any non-operator, a closing parenthesis in particular — stops
    /// the loop just as a too-low precedence does.
    pub open spec fn spec_climb(
        tokens: Seq<Token>,
        min_precedence: int,
        lhs: int,
        pos: nat,
    ) -> Result<(int, nat), CalcError>
        decreases (if pos <= tokens.len() { tokens.len() - pos } else { 0 }), 0int,
    {
        if pos >= tokens.len() {
            Ok((lhs, pos))
        } else {
            let op = tokens[pos as int];
            if Self::spec_precedence(op) == 0 || Self::spec_precedence(op) < min_precedence {
                Ok((lhs, pos))
            } else {
                let next_min = if Self::spec_is_right_associative(op) {
                    Self::spec_precedence(op)
                } else {
                    Self::spec_precedence(op) + 1
                };
                let rest = tokens.subrange(pos as int + 1, tokens.len() as int);
                match Self::spec_parse_expression(rest, next_min) {
                    Err(e) => Err(e),
                    Ok((rhs, rhs_consumed)) => match Self::spec_apply_op(op, lhs, rhs) {
                        Err(e) => Err(e),
                        Ok(v) => Self::spec_climb(tokens, min_precedence, v, pos + 1 + rhs_consumed),
                    },
                }
            }
        }
    }

    /// The value of a whole token sequence: climb from the lowest tier and
    /// drop the consumed-token count.
    pub open spec fn spec_calculate(tokens: Seq<Token>) -> Result<int, CalcError> {
        match Self::spec_parse_expression(tokens, 0) {
            Ok(p) => Ok(p.0),
            Err(e) => Err(e),
        }
    }

    /// The numeric value of a token; 0 for a non-number.
    pub open spec fn spec_operand(token: Token) -> int {
        match token {
            Token::Number(n) => n as int,
            _ => 0,
        }
    }

    /// A flat alternation: number tokens at even positions joined by `Plus`
    /// or `Multiply` tokens at odd positions.
    pub open spec fn is_flat(tokens: Seq<Token>) -> bool {
        &&& tokens.len() % 2 == 1
        &&& forall|i: int|
            0 <= i < tokens.len() ==> (if i % 2 == 0 {
                tokens[i] is Number
            } else {
                tokens[i] is Plus || tokens[i] is Multiply
            })
    }

    /// Folds the multiplications that follow operator position `i` into the
    /// accumulated product `acc`, stopping before the first `Plus` or at the
    /// end: yields the product and the count of (`Multiply`, factor) pairs
    /// consumed.
    pub open spec fn spec_flat_term(tokens: Seq<Token>, acc: int, i: nat) -> Result<
        (int, nat),
        CalcError,
    >
        decreases (if i <= tokens.len() { tokens.len() - i } else { 0 }),
    {
        if i + 1 >= tokens.len() || !(tokens[i as int] is Multiply) {
            Ok((acc, 0nat))
        } else {
            match spec_check_range(acc * Self::spec_operand(tokens[i as int + 1])) {
                Err(e) => Err(e),
                Ok(v) => match Self::spec_flat_term(tokens, v, i + 2) {
                    Err(e) => Err(e),
                    Ok((t, c)) => Ok((t, c + 1)),
                },
            }
        }
    }

    /// Left-to-right reference evaluation of a flat alternation from
    /// operator position `i` with accumulated value `acc`: a `Multiply`
    /// extends the running product; a `Plus` first takes the whole following
    /// product, then adds it.
    pub open spec fn spec_flat_sum(tokens: Seq<Token>, acc: int, i: nat) -> Result<int, CalcError>
        decreases (if i <= tokens.len() { tokens.len() - i } else { 0 }),
    {
        if i >= tokens.len() {
            Ok(acc)
        } else if tokens[i as int] is Multiply {
            match spec_check_range(acc * Self::spec_operand(tokens[i as int + 1])) {
                Err(e) => Err(e),
                Ok(v) => Self::spec_flat_sum(tokens, v, i + 2),
            }
        } else {
            match Self::spec_flat_term(tokens, Self::spec_operand(tokens[i as int + 1]), i + 2) {
                Err(e) => Err(e),
                Ok((t, c)) => match spec_check_range(acc + t) {
                    Err(e) => Err(e),
                    Ok(v) => Self::spec_flat_sum(tokens, v, i + 2 + 2 * c),
                },
            }
        }
    }

    /// The left-to-right reference value of a flat alternation: multiply
    /// binds before add, equal-rank operators fold left-to-right.
    pub open spec fn spec_flat_eval(tokens: Seq<Token>) -> Result<int, CalcError> {
        if tokens.len() == 0 {
            Err(CalcError::MalformedPrimary)
        } else {
            Self::spec_flat_sum(tokens, Self::spec_operand(tokens[0]), 1)
        }
    }

    fn precedence(token: &Token) -> (r: u32)
        ensures
            r as int == Self::spec_precedence(*token),
            r <= 3,
    {
        match token {
            Token::Plus | Token::Minus => 1,
            Token::Multiply | Token::Divide => 2,
            Token::Power => 3,
            _ => 0,
        }
    }

    fn is_right_associative(token: &Token) -> (r: bool)
        ensures
            r == Self::spec_is_right_associative(*token),
    {
        matches!(token, Token::Power)
    }

    /// Combines two operands with an operator token; a non-operator token is
    /// an invalid-operator fault.
    pub fn apply_op(op: &Token, lhs: i32, rhs: i32) -> (r: Result<i32, CalcError>)
        ensures
            val_agrees(r, Self::spec_apply_op(*op, lhs as int, rhs as int)),
    {
        match op {
            Token::Plus => match lhs.checked_add(rhs) {
                Some(v) => Ok(v),
                None => Err(CalcError::ArithmeticFault),
            },
            Token::Minus => match lhs.checked_sub(rhs) {
                Some(v) => Ok(v),
                None => Err(CalcError::ArithmeticFault),
            },
            Token::Multiply => match lhs.checked_mul(rhs) {
                Some(v) => Ok(v),
                None => Err(CalcError::ArithmeticFault),
            },
            Token::Divide => if rhs == 0 {
                Err(CalcError::ArithmeticFault)
            } else {
                match lhs.checked_div(rhs) {
                    Some(v) => Ok(v),
                    None => Err(CalcError::ArithmeticFault),
                }
            },
            Token::Power => if rhs < 0 {
                Err(CalcError::ArithmeticFault)
            } else {
                match pow_i32(lhs, rhs as u32) {
                    Some(v) => Ok(v),
                    None => Err(CalcError::ArithmeticFault),
                }
            },
            _ => Err(CalcError::InvalidOperator),
        }
    }

    fn parse_primary(tokens: &[Token]) -> (r: Result<(i32, usize), CalcError>)
        ensures
            pair_agrees(r, Self::spec_parse_primary(tokens@)),
            r matches Ok(p) ==> p.1 <= tokens@.len(),
        decreases tokens@.len(), 1int,
    {
        if tokens.len() == 0 {
            return Err(CalcError::MalformedPrimary);
        }
        match &tokens[0] {
            Token::Number(n) => Ok((*n, 1)),
            Token::LeftParen => {
                let rest = &tokens[1..tokens.len()];
                match Self::parse_expression(rest, 0) {
                    Err(e) => Err(e),
                    Ok((value, inner)) => {
                        if inner + 1 >= tokens.len() {
                            Err(CalcError::UnmatchedParenthesis)
                        } else {
                            match &tokens[inner + 1] {
                                Token::RightParen => Ok((value, inner + 2)),
                                _ => Err(CalcError::UnmatchedParenthesis),
                            }
                        }
                    },
                }
            },
            _ => Err(CalcError::MalformedPrimary),
        }
    }

    fn parse_expression(tokens: &[Token], min_precedence: u32) -> (r: Result<
        (i32, usize),
        CalcError,
    >)
        ensures
            pair_agrees(r, Self::spec_parse_expression(tokens@, min_precedence as int)),
            r matches Ok(p) ==> p.1 <= tokens@.len(),
        decreases tokens@.len(), 2int,
    {
        let (mut lhs, mut pos): (i32, usize) = match Self::parse_primary(tokens) {
            Ok(p) => p,
            Err(e) => {
                return Err(e);
            },
        };
        loop
            invariant
                pos <= tokens@.len(),
                Self::spec_parse_expression(tokens@, min_precedence as int) == Self::spec_climb(
                    tokens@,
                    min_precedence as int,
                    lhs as int,
                    pos as nat,
                ),
            ensures
                pos <= tokens@.len(),
                Self::spec_parse_expression(tokens@, min_precedence as int) == Ok::<
                    (int, nat),
                    CalcError,
                >((lhs as int, pos as nat)),
            decreases tokens@.len() - pos,
        {
            if pos >= tokens.len() {
                break;
            }
            let op_precedence = Self::precedence(&tokens[pos]);
            if op_precedence == 0 || op_precedence < min_precedence {
                break;
            }
            let next_min: u32 = if Self::is_right_associative(&tokens[pos]) {
                op_precedence
            } else {
                op_precedence + 1
            };
            let rest = &tokens[pos + 1..tokens.len()];
            match Self::parse_expression(rest, next_min) {
                Err(e) => {
                    return Err(e);
                },
                Ok((rhs, rhs_consumed)) => {
                    match Self::apply_op(&tokens[pos], lhs, rhs) {
                        Err(e) => {
                            return Err(e);
                        },
                        Ok(v) => {
                            lhs = v;
                            pos = pos + 1 + rhs_consumed;
                        },
                    }
                },
            }
        }
        Ok((lhs, pos))
    }

    /// Evaluates a token sequence, returning the value that the mathematical
    /// evaluation `spec_calculate` assigns to it, or the fault it names.
    pub fn calculate(tokens: &[Token]) -> (r: Result<i32, CalcError>)
        ensures
            val_agrees(r, Self::spec_calculate(tokens@)),
    {
        match Self::parse_expression(tokens, 0) {
            Ok((result, _)) => Ok(result),
            Err(e) => Err(e),
        }
    }

    /// Evaluation is deterministic: any two results that `calculate` may
    /// return for equal token sequences are equal, since each agrees with
    /// the one mathematical evaluation of that sequence.
    pub proof fn lemma_calculate_deterministic(
        tokens: Seq<Token>,
        r1: Result<i32, CalcError>,
        r2: Result<i32, CalcError>,
    )
        requires
            val_agrees(r1, Self::spec_calculate(tokens)),
            val_agrees(r2, Self::spec_calculate(tokens)),
        ensures
            r1 == r2,
    {
    }

    proof fn lemma_parse_primary_never_invalid(tokens: Seq<Token>)
        ensures
            Self::spec_parse_primary(tokens) != Err::<(int, nat), CalcError>(
                CalcError::InvalidOperator,
            ),
        decreases tokens.len(), 1int,
    {
        if tokens.len() > 0 && tokens[0] is LeftParen {
            Self::lemma_parse_expression_never_invalid(
                tokens.subrange(1, tokens.len() as int),
                0,
            );
        }
    }

    proof fn lemma_climb_never_invalid(tokens: Seq<Token>, min_precedence: int, lhs: int, pos: nat)
        ensures
            Self::spec_climb(tokens, min_precedence, lhs, pos) != Err::<(int, nat), CalcError>(
                CalcError::InvalidOperator,
            ),
        decreases (if pos <= tokens.len() { tokens.len() - pos } else { 0 }), 0int,
    {
        if pos < tokens.len() {
            let op = tokens[pos as int];
            let p = Self::spec_precedence(op);
            if !(p == 0 || p < min_precedence) {
                let next_min = if Self::spec_is_right_associative(op) {
                    p
                } else {
                    p + 1
                };
                let rest = tokens.subrange(pos as int + 1, tokens.len() as int);
                Self::lemma_parse_expression_never_invalid(rest, next_min);
                match Self::spec_parse_expression(rest, next_min) {
                    Ok((rhs, rhs_consumed)) => {
                        match Self::spec_apply_op(op, lhs, rhs) {
                            Ok(v) => Self::lemma_climb_never_invalid(
                                tokens,
                                min_precedence,
                                v,
                                pos + 1 + rhs_consumed,
                            ),
                            Err(_) => {},
                        }
                    },
                    Err(_) => {},
                }
            }
        }
    }

    /// The climbing loop consumes only tokens of operator rank, so evaluation
    /// never reports an invalid operator: that fault can only mark a caller
    /// applying `apply_op` to a non-operator token itself.
    pub proof fn lemma_parse_expression_never_invalid(tokens: Seq<Token>, min_precedence: int)
        ensures
            Self::spec_parse_expression(tokens, min_precedence) != Err::<(int, nat), CalcError>(
                CalcError::InvalidOperator,
            ),
        decreases tokens.len(), 2int,
    {
        Self::lemma_parse_primary_never_invalid(tokens);
        match Self::spec_parse_primary(tokens) {
            Ok((lhs, pos)) => Self::lemma_climb_never_invalid(tokens, min_precedence, lhs, pos),
            Err(_) => {},
        }
    }

    /// Whole-sequence evaluation never reports an invalid operator.
    pub proof fn lemma_calculate_never_invalid_operator(tokens: Seq<Token>)
        ensures
            Self::spec_calculate(tokens) != Err::<int, CalcError>(CalcError::InvalidOperator),
    {
        Self::lemma_parse_expression_never_invalid(tokens, 0);
    }

    /// Dropping an even-length prefix of a flat alternation leaves a flat
    /// alternation.
    proof fn lemma_flat_suffix(tokens: Seq<Token>, k: nat)
        requires
            Self::is_flat(tokens),
            k % 2 == 0,
            k <= tokens.len(),
        ensures
            Self::is_flat(tokens.subrange(k as int, tokens.len() as int)),
    {
        let rest = tokens.subrange(k as int, tokens.len() as int);
        assert forall|j: int| 0 <= j < rest.len() implies (if j % 2 == 0 {
            rest[j] is Number
        } else {
            rest[j] is Plus || rest[j] is Multiply
        }) by {
            assert(rest[j] == tokens[k as int + j]);
            assert((k as int + j) % 2 == j % 2);
        }
    }

    /// Every token of a flat alternation ranks below 3, so a climb over one
    /// whose threshold is 3 or more binds nothing.
    proof fn lemma_climb_high_threshold(
        tokens: Seq<Token>,
        min_precedence: int,
        lhs: int,
        pos: nat,
    )
        requires
            Self::is_flat(tokens),
            min_precedence >= 3,
        ensures
            Self::spec_climb(tokens, min_precedence, lhs, pos) == Ok::<(int, nat), CalcError>(
                (lhs, pos),
            ),
    {
        if pos < tokens.len() {
            assert(tokens[pos as int] is Number || tokens[pos as int] is Plus || tokens[pos as int]
                is Multiply);
        }
    }

    /// A climb with threshold 2 over a flat alternation computes exactly the
    /// running product of the `Multiply` run that starts at position `i`.
    proof fn lemma_climb_term(tokens: Seq<Token>, acc: int, i: nat)
        requires
            Self::is_flat(tokens),
            i % 2 == 1,
            i <= tokens.len(),
        ensures
            Self::spec_climb(tokens, 2, acc, i) == (match Self::spec_flat_term(tokens, acc, i) {
                Ok((v, c)) => Ok::<(int, nat), CalcError>((v, i + 2 * c)),
                Err(e) => Err::<(int, nat), CalcError>(e),
            }),
        decreases tokens.len() - i,
    {
        let len = tokens.len() as int;
        if i < tokens.len() {
            let op = tokens[i as int];
            assert(op is Plus || op is Multiply);
            if op is Multiply {
                assert(tokens[i as int + 1] is Number);
                let rest = tokens.subrange(i as int + 1, len);
                assert(rest[0] == tokens[i as int + 1]);
                let n = Self::spec_operand(tokens[i as int + 1]);
                assert(Self::spec_parse_primary(rest) == Ok::<(int, nat), CalcError>((n, 1nat)));
                Self::lemma_flat_suffix(tokens, (i + 1) as nat);
                Self::lemma_climb_high_threshold(rest, 3, n, 1);
                assert(Self::spec_parse_expression(rest, 3) == Ok::<(int, nat), CalcError>(
                    (n, 1nat),
                ));
                match spec_check_range(acc * n) {
                    Ok(v) => {
                        Self::lemma_climb_term(tokens, v, i + 2);
                    },
                    Err(_) => {},
                }
            }
        }
    }

    /// The reference product is unchanged by dropping a prefix of the
    /// sequence, up to shifting the start position.
    proof fn lemma_flat_term_shift(tokens: Seq<Token>, k: nat, acc: int, j: nat)
        requires
            k <= tokens.len(),
        ensures
            Self::spec_flat_term(tokens.subrange(k as int, tokens.len() as int), acc, j)
                == Self::spec_flat_term(tokens, acc, k + j),
        decreases (if k + j <= tokens.len() { tokens.len() - k - j } else { 0 }),
    {
        let rest = tokens.subrange(k as int, tokens.len() as int);
        if !(j + 1 >= rest.len() || !(rest[j as int] is Multiply)) {
            assert(rest[j as int] == tokens[k as int + j]);
            assert(rest[j as int + 1] == tokens[k as int + j + 1]);
            match spec_check_range(acc * Self::spec_operand(rest[j as int + 1])) {
                Ok(v) => {
                    Self::lemma_flat_term_shift(tokens, k, v, j + 2);
                },
                Err(_) => {},
            }
        }
    }

    /// The reference product never runs past the end of the sequence.
    proof fn lemma_flat_term_bounds(tokens: Seq<Token>, acc: int, i: nat)
        requires
            i <= tokens.len(),
        ensures
            match Self::spec_flat_term(tokens, acc, i) {
                Ok((t, c)) => i + 2 * c <= tokens.len(),
                Err(_) => true,
            },
        decreases tokens.len() - i,
    {
        if !(i + 1 >= tokens.len() || !(tokens[i as int] is Multiply)) {
            match spec_check_range(acc * Self::spec_operand(tokens[i as int + 1])) {
                Ok(v) => {
                    Self::lemma_flat_term_bounds(tokens, v, i + 2);
                },
                Err(_) => {},
            }
        }
    }

    /// A climb from the bottom threshold over a flat alternation computes
    /// exactly the left-to-right reference evaluation, consuming the whole
    /// sequence.
    proof fn lemma_climb_sum(tokens: Seq<Token>, acc: int, i: nat)
        requires
            Self::is_flat(tokens),
            i % 2 == 1,
            i <= tokens.len(),
        ensures
            Self::spec_climb(tokens, 0, acc, i) == (match Self::spec_flat_sum(tokens, acc, i) {
                Ok(v) => Ok::<(int, nat), CalcError>((v, tokens.len())),
                Err(e) => Err::<(int, nat), CalcError>(e),
            }),
        decreases tokens.len() - i,
    {
        let len = tokens.len() as int;
        if i < tokens.len() {
            let op = tokens[i as int];
            assert(op is Plus || op is Multiply);
            assert(tokens[i as int + 1] is Number);
            let rest = tokens.subrange(i as int + 1, len);
            assert(rest[0] == tokens[i as int + 1]);
            let n = Self::spec_operand(tokens[i as int + 1]);
            assert(Self::spec_parse_primary(rest) == Ok::<(int, nat), CalcError>((n, 1nat)));
            Self::lemma_flat_suffix(tokens, (i + 1) as nat);
            if op is Multiply {
                Self::lemma_climb_high_threshold(rest, 3, n, 1);
                assert(Self::spec_parse_expression(rest, 3) == Ok::<(int, nat), CalcError>(
                    (n, 1nat),
                ));
                match spec_check_range(acc * n) {
                    Ok(v) => {
                        Self::lemma_climb_sum(tokens, v, i + 2);
                    },
                    Err(_) => {},
                }
            } else {
                Self::lemma_climb_term(rest, n, 1);
                Self::lemma_flat_term_shift(tokens, (i + 1) as nat, n, 1);
                Self::lemma_flat_term_bounds(tokens, n, i + 2);
                match Self::spec_flat_term(tokens, n, i + 2) {
                    Ok((t, c)) => {
                        assert(Self::spec_parse_expression(rest, 2) == Ok::<
                            (int, nat),
                            CalcError,
                        >((t, 1 + 2 * c)));
                        match spec_check_range(acc + t) {
                            Ok(v) => {
                                Self::lemma_climb_sum(tokens, v, i + 2 + 2 * c);
                            },
                            Err(_) => {},
                        }
                    },
                    Err(_) => {},
                }
            }
        }
    }

    /// For a flat alternation of numbers joined by `Plus` and `Multiply`,
    /// evaluation equals left-to-right application with multiplication
    /// binding before addition.
    pub proof fn lemma_flat_left_to_right(tokens: Seq<Token>)
        requires
            Self::is_flat(tokens),
        ensures
            Self::spec_calculate(tokens) == Self::spec_flat_eval(tokens),
    {
        assert(tokens[0] is Number);
        Self::lemma_climb_sum(tokens, Self::spec_operand(tokens[0]), 1);
    }

    /// A sequence that does not open with a number or a left parenthesis is
    /// rejected at once as a malformed primary, and so is an empty sequence.
    pub proof fn lemma_leading_non_primary_malformed(tokens: Seq<Token>)
        requires
            tokens.len() == 0 || (!(tokens[0] is Number) && !(tokens[0] is LeftParen)),
        ensures
            Self::spec_calculate(tokens) == Err::<int, CalcError>(CalcError::MalformedPrimary),
    {
    }

    /// A sequence holding a single number token evaluates to that number:
    /// the one token is consumed and no operator is applied.
    pub proof fn lemma_single_number(n: i32)
        ensures
            Self::spec_parse_expression(seq![Token::Number(n)], 0) == Ok::<(int, nat), CalcError>(
                (n as int, 1nat),
            ),
            Self::spec_calculate(seq![Token::Number(n)]) == Ok::<int, CalcError>(n as int),
    {
        let s = seq![Token::Number(n)];
        assert(Self::spec_climb(s, 0, n as int, 1nat) == Ok::<(int, nat), CalcError>(
            (n as int, 1nat),
        ));
    }

    /// A parenthesized sum multiplied by a factor binds the sum first,
    /// overriding the higher rank of multiplication, whatever the operands.
    pub proof fn lemma_parentheses_override_precedence(a: i32, b: i32, c: i32)
        ensures
            Self::spec_calculate(
                seq![
                    Token::LeftParen,
                    Token::Number(a),
                    Token::Plus,
                    Token::Number(b),
                    Token::RightParen,
                    Token::Multiply,
                    Token::Number(c),
                ],
            ) == (match Self::spec_apply_op(Token::Plus, a as int, b as int) {
                Err(e) => Err::<int, CalcError>(e),
                Ok(v) => match Self::spec_apply_op(Token::Multiply, v, c as int) {
                    Err(e) => Err::<int, CalcError>(e),
                    Ok(w) => Ok::<int, CalcError>(w),
                },
            }),
    {
        let s = seq![
            Token::LeftParen,
            Token::Number(a),
            Token::Plus,
            Token::Number(b),
            Token::RightParen,
            Token::Multiply,
            Token::Number(c),
        ];
        let inner = s.subrange(1, 7);
        assert(inner =~= seq![
            Token::Number(a),
            Token::Plus,
            Token::Number(b),
            Token::RightParen,
            Token::Multiply,
            Token::Number(c),
        ]);
        let r1 = inner.subrange(2, 6);
        assert(r1 =~= seq![
            Token::Number(b),
            Token::RightParen,
            Token::Multiply,
            Token::Number(c),
        ]);
        assert(Self::spec_climb(r1, 2, b as int, 1nat) == Ok::<(int, nat), CalcError>(
            (b as int, 1nat),
        ));
        assert(Self::spec_parse_expression(r1, 2) == Ok::<(int, nat), CalcError>(
            (b as int, 1nat),
        ));
        match Self::spec_apply_op(Token::Plus, a as int, b as int) {
            Err(e) => {
                assert(Self::spec_climb(inner, 0, a as int, 1nat) == Err::<(int, nat), CalcError>(
                    e,
                ));
                assert(Self::spec_parse_expression(inner, 0) == Err::<(int, nat), CalcError>(e));
                assert(Self::spec_parse_primary(s) == Err::<(int, nat), CalcError>(e));
                assert(Self::spec_parse_expression(s, 0) == Err::<(int, nat), CalcError>(e));
            },
            Ok(v) => {
                assert(Self::spec_climb(inner, 0, v, 3nat) == Ok::<(int, nat), CalcError>(
                    (v, 3nat),
                ));
                assert(Self::spec_climb(inner, 0, a as int, 1nat) == Ok::<(int, nat), CalcError>(
                    (v, 3nat),
                ));
                assert(Self::spec_parse_expression(inner, 0) == Ok::<(int, nat), CalcError>(
                    (v, 3nat),
                ));
                assert(Self::spec_parse_primary(s) == Ok::<(int, nat), CalcError>((v, 5nat)));
                let r2 = s.subrange(6, 7);
                assert(r2 =~= seq![Token::Number(c)]);
                assert(Self::spec_climb(r2, 3, c as int, 1nat) == Ok::<(int, nat), CalcError>(
                    (c as int, 1nat),
                ));
                assert(Self::spec_parse_expression(r2, 3) == Ok::<(int, nat), CalcError>(
                    (c as int, 1nat),
                ));
                match Self::spec_apply_op(Token::Multiply, v, c as int) {
                    Err(e) => {
                        assert(Self::spec_climb(s, 0, v, 5nat) == Err::<(int, nat), CalcError>(e));
                        assert(Self::spec_parse_expression(s, 0) == Err::<(int, nat), CalcError>(
                            e,
                        ));
                    },
                    Ok(w) => {
                        assert(Self::spec_climb(s, 0, w, 7nat) == Ok::<(int, nat), CalcError>(
                            (w, 7nat),
                        ));
                        assert(Self::spec_climb(s, 0, v, 5nat) == Ok::<(int, nat), CalcError>(
                            (w, 7nat),
                        ));
                        assert(Self::spec_parse_expression(s, 0) == Ok::<(int, nat), CalcError>(
                            (w, 7nat),
                        ));
                    },
                }
            },
        }
    }

    /// Exponentiation chains group right-to-left: a double power evaluates
    /// the right-hand power first, whatever the operands.
    pub proof fn lemma_power_right_associative(a: i32, b: i32, c: i32)
        ensures
            Self::spec_calculate(
                seq![
                    Token::Number(a),
                    Token::Power,
                    Token::Number(b),
                    Token::Power,
                    Token::Number(c),
                ],
            ) == (match Self::spec_apply_op(Token::Power, b as int, c as int) {
                Err(e) => Err::<int, CalcError>(e),
                Ok(v) => match Self::spec_apply_op(Token::Power, a as int, v) {
                    Err(e) => Err::<int, CalcError>(e),
                    Ok(w) => Ok::<int, CalcError>(w),
                },
            }),
    {
        let s = seq![
            Token::Number(a),
            Token::Power,
            Token::Number(b),
            Token::Power,
            Token::Number(c),
        ];
        let r1 = s.subrange(2, 5);
        assert(r1 =~= seq![Token::Number(b), Token::Power, Token::Number(c)]);
        let r2 = r1.subrange(2, 3);
        assert(r2 =~= seq![Token::Number(c)]);
        assert(Self::spec_climb(r2, 3, c as int, 1nat) == Ok::<(int, nat), CalcError>(
            (c as int, 1nat),
        ));
        assert(Self::spec_parse_expression(r2, 3) == Ok::<(int, nat), CalcError>(
            (c as int, 1nat),
        ));
        match Self::spec_apply_op(Token::Power, b as int, c as int) {
            Err(_) => {},
            Ok(v) => {
                assert(Self::spec_climb(r1, 3, v, 3nat) == Ok::<(int, nat), CalcError>((v, 3nat)));
                assert(Self::spec_parse_expression(r1, 3) == Ok::<(int, nat), CalcError>(
                    (v, 3nat),
                ));
                match Self::spec_apply_op(Token::Power, a as int, v) {
                    Err(_) => {},
                    Ok(w) => {
                        assert(Self::spec_climb(s, 0, w, 5nat) == Ok::<(int, nat), CalcError>(
                            (w, 5nat),
                        ));
                        assert(Self::spec_parse_expression(s, 0) == Ok::<(int, nat), CalcError>(
                            (w, 5nat),
                        ));
                    },
                }
            },
        }
    }
}

} // verus!

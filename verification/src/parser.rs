//! Recursive-descent parser: tokens in, statement trees out.
//!
//! Grammar, lowest precedence outward:
//! `statement := identity ';' ('@' Identifier)?`,
//! `identity := expr ('=' expr)+`,
//! `expr := term (('+'|'-'|'+-') term)*` (a run of the same sign joins
//! one chain; a sign change nests),
//! `term := factor (('*'|'/')? factor)*` (a factor directly following
//! another multiplies implicitly),
//! `factor := sign factor | Number | Identifier args? | '(' expr ')'`,
//! with `'^'` binding right-recursively after any factor.
//!
//! Any unexpected token aborts the statement with the token and the
//! expected kind; nothing is retried. Descent depth is bounded by an
//! explicit budget so that every run terminates; the budget grows with
//! the input and is never reached by well-formed sources.

use crate::ast::{
    all_wf, lemma_all_wf_pointwise, lemma_models_index, models, AstV, Call, Expr, Identity, Index,
    Sign, Statement, Term, Unary, AST,
};
use crate::lexer::{
    spec_str_bytes, spec_is_digit, LexError, LexErrV, LexState, Lexer, Position, Token, TokenKind,
    TokenV,
};
use crate::rat::Rat;
use vstd::prelude::*;

verus! {

/// Why parsing of a source stopped.
#[derive(Debug, Clone, PartialEq, Eq)]
pub enum ParseError {
    /// The lexer met an unrecognized character.
    Lexical(LexError),
    /// An unexpected token, with the kind that was required, if one was.
    Syntax { kind: TokenKind, value: String, line: usize, column: usize, expected: Option<TokenKind> },
    /// A numeric literal with more than eighteen digits.
    BadNumber { value: String, line: usize, column: usize },
    /// The descent budget ran out.
    Depth,
}

/// The model of a parse error.
pub enum ParseErrV {
    Lexical(LexErrV),
    Syntax { kind: TokenKind, value: Seq<char>, line: int, column: int, expected: Option<TokenKind> },
    BadNumber { value: Seq<char>, line: int, column: int },
    Depth,
}

impl ParseError {
    /// The model of this error.
    pub open spec fn model(self) -> ParseErrV {
        match self {
            ParseError::Lexical(e) => ParseErrV::Lexical(e.model()),
            ParseError::Syntax { kind, value, line, column, expected } => ParseErrV::Syntax {
                kind,
                value: value@,
                line: line as int,
                column: column as int,
                expected,
            },
            ParseError::BadNumber { value, line, column } => ParseErrV::BadNumber {
                value: value@,
                line: line as int,
                column: column as int,
            },
            ParseError::Depth => ParseErrV::Depth,
        }
    }
}

/// The models of the tokens from index `i` on.
pub open spec fn token_models(s: Seq<Token>, i: int) -> Seq<TokenV>
    decreases s.len() - i,
{
    if i < 0 || i >= s.len() {
        Seq::empty()
    } else {
        seq![s[i].model()] + token_models(s, i + 1)
    }
}

/// `token_models(s, k)` lists the models of `s[k..]`, in order.
pub proof fn lemma_token_models_index(s: Seq<Token>, k: int)
    requires
        0 <= k <= s.len(),
    ensures
        token_models(s, k).len() == s.len() - k,
        forall|j: int|
            0 <= j < s.len() - k ==> #[trigger] token_models(s, k)[j] == s[k + j].model(),
    decreases s.len() - k,
{
    if k < s.len() {
        lemma_token_models_index(s, k + 1);
        assert forall|j: int|
            0 <= j < s.len() - k implies #[trigger] token_models(s, k)[j] == s[k + j].model() by {
            if j > 0 {
                assert(token_models(s, k + 1)[j - 1] == s[k + j].model());
            }
        }
    }
}

/// The first index at or after `i` that does not hold a decimal digit.
pub open spec fn spec_digits_end(b: Seq<u8>, i: int) -> int
    decreases b.len() - i,
{
    if 0 <= i < b.len() && spec_is_digit(b[i]) {
        spec_digits_end(b, i + 1)
    } else {
        i
    }
}

/// The value of the digit run `b[i..j)`.
pub open spec fn spec_digits_val(b: Seq<u8>, i: int, j: int) -> int
    decreases j - i,
{
    if i < j && 0 <= i && j <= b.len() {
        spec_digits_val(b, i, j - 1) * 10 + (b[j - 1] - 48)
    } else {
        0
    }
}

/// Ten to the `k`.
pub open spec fn spec_pow10(k: nat) -> int
    decreases k,
{
    if k == 0 {
        1
    } else {
        10 * spec_pow10((k - 1) as nat)
    }
}

/// The exact rational a numeric literal denotes: an unbroken digit run,
/// optionally followed by `'.'` and a digit run, at most eighteen
/// digits in all; the value is `digits / 10^fraction_digits`.
pub open spec fn spec_rat_of_bytes(b: Seq<u8>) -> Option<Rat> {
    let d = spec_digits_end(b, 0);
    if d == 0 {
        Option::None
    } else if d == b.len() {
        if d <= 18 {
            Option::Some(Rat { num: spec_digits_val(b, 0, d) as i64, den: 1 })
        } else {
            Option::None
        }
    } else if b[d] == 46 {
        let e = spec_digits_end(b, d + 1);
        let k = (e - d - 1) as nat;
        if e == b.len() && d + k <= 18 {
            Option::Some(
                Rat {
                    num: (spec_digits_val(b, 0, d) * spec_pow10(k) + spec_digits_val(b, d + 1, e)) as i64,
                    den: spec_pow10(k) as i64,
                },
            )
        } else {
            Option::None
        }
    } else {
        Option::None
    }
}

/// A digit run's value is nonnegative and bounded by a power of ten.
pub proof fn lemma_digits_val_bound(b: Seq<u8>, i: int, j: int)
    requires
        0 <= i <= j <= b.len(),
        forall|m: int| i <= m < j ==> spec_is_digit(b[m]),
    ensures
        0 <= spec_digits_val(b, i, j) < spec_pow10((j - i) as nat),
    decreases j - i,
{
    if i < j {
        lemma_digits_val_bound(b, i, j - 1);
        assert(spec_is_digit(b[j - 1]));
        assert(0 <= spec_digits_val(b, i, j - 1) * 10 + (b[j - 1] - 48) < spec_pow10(
            (j - i) as nat,
        )) by (nonlinear_arith)
            requires
                0 <= spec_digits_val(b, i, j - 1) < spec_pow10((j - i - 1) as nat),
                48 <= b[j - 1] <= 57,
                spec_pow10((j - i) as nat) == 10 * spec_pow10((j - i - 1) as nat),
        ;
    }
}

/// Everything before the digit-run end is a digit.
pub proof fn lemma_digits_end_props(b: Seq<u8>, i: int)
    requires
        0 <= i <= b.len(),
    ensures
        i <= spec_digits_end(b, i) <= b.len(),
        forall|m: int| i <= m < spec_digits_end(b, i) ==> spec_is_digit(b[m]),
        spec_digits_end(b, i) < b.len() ==> !spec_is_digit(b[spec_digits_end(b, i)]),
    decreases b.len() - i,
{
    if i < b.len() && spec_is_digit(b[i]) {
        lemma_digits_end_props(b, i + 1);
    }
}

/// Powers of ten grow monotonically.
pub proof fn lemma_pow10_bounds(k: nat)
    requires
        k <= 18,
    ensures
        1 <= spec_pow10(k) <= 1000000000000000000,
    decreases k,
{
    if k > 0 {
        lemma_pow10_bounds((k - 1) as nat);
        assert(spec_pow10(k) == 10 * spec_pow10((k - 1) as nat));
        assert(spec_pow10((k - 1) as nat) <= 100000000000000000) by {
            if spec_pow10((k - 1) as nat) > 100000000000000000 {
                lemma_pow10_lower((k - 1) as nat);
            }
        }
    }
}

/// `10^k` is at least `10^17 + 1` only past seventeen digits.
proof fn lemma_pow10_lower(k: nat)
    requires
        spec_pow10(k) > 100000000000000000,
    ensures
        k >= 18,
    decreases k,
{
    if k < 18 {
        lemma_pow10_mono_up(k, 17);
        assert(spec_pow10(17nat) == 100000000000000000) by {
            lemma_pow10_exact();
        }
    }
}

/// Power of ten is monotone in the exponent.
proof fn lemma_pow10_mono_up(a: nat, b2: nat)
    requires
        a <= b2,
    ensures
        spec_pow10(a) <= spec_pow10(b2),
    decreases b2 - a,
{
    if a < b2 {
        lemma_pow10_mono_up(a, (b2 - 1) as nat);
        lemma_pow10_pos((b2 - 1) as nat);
        assert(spec_pow10(b2) == 10 * spec_pow10((b2 - 1) as nat));
    }
}

/// Powers of ten are positive.
proof fn lemma_pow10_pos(k: nat)
    ensures
        spec_pow10(k) >= 1,
    decreases k,
{
    if k > 0 {
        lemma_pow10_pos((k - 1) as nat);
    }
}

/// The seventeenth power of ten, computed.
proof fn lemma_pow10_exact()
    ensures
        spec_pow10(17nat) == 100000000000000000,
{
    reveal_with_fuel(spec_pow10, 19);
}

/// Reads the exact rational a numeric literal denotes.
pub fn rat_of_value(v: &String) -> (r: Option<Rat>)
    ensures
        r == spec_rat_of_bytes(spec_str_bytes(v@)),
        r is Some ==> r->0.wf(),
{
    let b = v.as_str().as_bytes_vec();
    proof {
        lemma_digits_end_props(b@, 0);
    }
    let d = digits_end(&b, 0);
    if d == 0 {
        return Option::None;
    }
    if d == b.len() {
        if d <= 18 {
            let num = digits_acc(&b, 0, d);
            return Option::Some(Rat { num, den: 1 });
        }
        return Option::None;
    }
    if b[d] == 46 {
        proof {
            lemma_digits_end_props(b@, d as int + 1);
        }
        let e = digits_end(&b, d + 1);
        let k = e - d - 1;
        if e == b.len() && d + k <= 18 {
            let whole = digits_acc(&b, 0, d);
            let num = frac_acc(&b, d + 1, e, whole, d);
            let den = pow10_exec(k);
            proof {
                lemma_pow10_bounds(k as nat);
            }
            return Option::Some(Rat { num, den });
        }
        return Option::None;
    }
    Option::None
}

/// Mirrors `spec_digits_end`.
fn digits_end(b: &Vec<u8>, i: usize) -> (r: usize)
    requires
        i <= b@.len(),
    ensures
        r as int == spec_digits_end(b@, i as int),
        i <= r <= b@.len(),
    decreases b@.len() - i,
{
    if i < b.len() {
        let c = b[i];
        if 48 <= c && c <= 57 {
            return digits_end(b, i + 1);
        }
    }
    i
}

/// Accumulates the value of a digit run of at most eighteen digits.
fn digits_acc(b: &Vec<u8>, i: usize, j: usize) -> (r: i64)
    requires
        0 <= i <= j <= b@.len(),
        j - i <= 18,
        forall|m: int| i <= m < j ==> spec_is_digit(b@[m]),
    ensures
        r as int == spec_digits_val(b@, i as int, j as int),
        0 <= r,
        (r as int) < spec_pow10((j - i) as nat),
    decreases j - i,
{
    proof {
        lemma_digits_val_bound(b@, i as int, j as int);
        lemma_pow10_bounds((j - i) as nat);
    }
    if i == j {
        return 0;
    }
    let prefix = digits_acc(b, i, j - 1);
    proof {
        lemma_digits_val_bound(b@, i as int, j as int - 1);
        lemma_pow10_bounds((j - i - 1) as nat);
        assert(prefix * 10 + 9 <= spec_pow10((j - i) as nat)) by (nonlinear_arith)
            requires
                prefix < spec_pow10((j - i - 1) as nat),
                prefix >= 0,
                spec_pow10((j - i) as nat) == 10 * spec_pow10((j - i - 1) as nat),
        ;
    }
    let d = b[j - 1];
    prefix * 10 + (d - 48) as i64
}

/// Continues the accumulator through the fraction digits: the result is
/// `whole * 10^(j-i) + value(b[i..j))`.
fn frac_acc(b: &Vec<u8>, i: usize, j: usize, whole: i64, wd: usize) -> (r: i64)
    requires
        0 <= i <= j <= b@.len(),
        wd + (j - i) <= 18,
        0 <= whole,
        whole < spec_pow10(wd as nat),
        forall|m: int| i <= m < j ==> spec_is_digit(b@[m]),
    ensures
        r as int == whole * spec_pow10((j - i) as nat) + spec_digits_val(b@, i as int, j as int),
        0 <= r,
        r < spec_pow10((wd + (j - i)) as nat),
    decreases j - i,
{
    proof {
        lemma_pow10_bounds(wd as nat);
        lemma_pow10_bounds((j - i) as nat);
        lemma_pow10_bounds((wd + (j - i)) as nat);
    }
    if i == j {
        proof {
            assert(whole * 1 == whole) by (nonlinear_arith);
        }
        return whole;
    }
    let prefix = frac_acc(b, i, j - 1, whole, wd);
    let d = b[j - 1];
    proof {
        lemma_digits_val_bound(b@, i as int, j as int);
        lemma_digits_val_bound(b@, i as int, j as int - 1);
        lemma_pow10_bounds((wd + (j - i) - 1) as nat);
        assert(prefix * 10 + 9 < 10 * spec_pow10((wd + (j - i) - 1) as nat)) by (nonlinear_arith)
            requires
                prefix < spec_pow10((wd + (j - i) - 1) as nat),
                prefix >= 0,
        ;
        assert(spec_pow10((wd + (j - i)) as nat) == 10 * spec_pow10((wd + (j - i) - 1) as nat));
        assert(prefix * 10 + (d - 48) == whole * (10 * spec_pow10((j - i - 1) as nat))
            + (spec_digits_val(b@, i as int, j as int - 1) * 10 + (d - 48))) by (nonlinear_arith)
            requires
                prefix == whole * spec_pow10((j - i - 1) as nat) + spec_digits_val(
                    b@,
                    i as int,
                    j as int - 1,
                ),
        ;
        assert(spec_pow10((j - i) as nat) == 10 * spec_pow10((j - i - 1) as nat));
        assert(whole * (10 * spec_pow10((j - i - 1) as nat)) == whole * spec_pow10(
            (j - i) as nat,
        )) by (nonlinear_arith)
            requires
                spec_pow10((j - i) as nat) == 10 * spec_pow10((j - i - 1) as nat),
        ;
    }
    prefix * 10 + (d - 48) as i64
}

/// Mirrors `spec_pow10` for exponents up to eighteen.
fn pow10_exec(k: usize) -> (r: i64)
    requires
        k <= 18,
    ensures
        r as int == spec_pow10(k as nat),
        r >= 1,
    decreases k,
{
    proof {
        lemma_pow10_bounds(k as nat);
    }
    if k == 0 {
        1
    } else {
        proof {
            lemma_pow10_bounds((k - 1) as nat);
        }
        10 * pow10_exec(k - 1)
    }
}


/// A syntax error at a token.
pub open spec fn spec_syntax_err(t: TokenV, expected: Option<TokenKind>) -> ParseErrV {
    ParseErrV::Syntax { kind: t.kind, value: t.value, line: t.line, column: t.col, expected }
}

/// Demands one token of the given kind.
pub open spec fn spec_eat(toks: Seq<TokenV>, p: int, k: TokenKind) -> Result<int, ParseErrV> {
    if p < 0 || p >= toks.len() {
        Err(ParseErrV::Depth)
    } else if toks[p].kind == k {
        Ok(p + 1)
    } else {
        Err(spec_syntax_err(toks[p], Option::Some(k)))
    }
}

/// Joins a new additive operand: a chain of the same sign grows by one
/// child, anything else nests.
pub open spec fn spec_append_expr(node: AstV, sign: Sign, f: AstV) -> AstV {
    match node {
        AstV::Expr { sign: s0, children } => if s0 == sign {
            AstV::Expr { sign: s0, children: children.push(f) }
        } else {
            AstV::Expr { sign, children: seq![AstV::Expr { sign: s0, children }, f] }
        },
        _ => AstV::Expr { sign, children: seq![node, f] },
    }
}

/// Joins a new multiplicative operand, as `spec_append_expr` does.
pub open spec fn spec_append_term(node: AstV, sign: Sign, f: AstV) -> AstV {
    match node {
        AstV::Term { sign: s0, children } => if s0 == sign {
            AstV::Term { sign: s0, children: children.push(f) }
        } else {
            AstV::Term { sign, children: seq![AstV::Term { sign: s0, children }, f] }
        },
        _ => AstV::Term { sign, children: seq![node, f] },
    }
}

/// `factor := sign factor | Number | Identifier args? | '(' expr ')'`,
/// with a right-recursive `'^'` postfix.
pub open spec fn spec_factor(toks: Seq<TokenV>, p: int, fuel: nat) -> Result<
    (AstV, int),
    ParseErrV,
>
    decreases fuel,
{
    if fuel == 0 {
        Err(ParseErrV::Depth)
    } else if p < 0 || p >= toks.len() {
        Err(ParseErrV::Depth)
    } else {
        let t = toks[p];
        let base: Result<(AstV, int), ParseErrV> = if t.kind == TokenKind::Add {
            match spec_factor(toks, p + 1, (fuel - 1) as nat) {
                Err(e) => Err(e),
                Ok((n, q)) => Ok((AstV::Unary { sign: Sign::Add, operand: Box::new(n) }, q)),
            }
        } else if t.kind == TokenKind::Subtract {
            match spec_factor(toks, p + 1, (fuel - 1) as nat) {
                Err(e) => Err(e),
                Ok((n, q)) => Ok((AstV::Unary { sign: Sign::Sub, operand: Box::new(n) }, q)),
            }
        } else if t.kind == TokenKind::AddSubtract {
            match spec_factor(toks, p + 1, (fuel - 1) as nat) {
                Err(e) => Err(e),
                Ok((n, q)) => Ok((AstV::Unary { sign: Sign::AddSub, operand: Box::new(n) }, q)),
            }
        } else if t.kind == TokenKind::Number {
            match spec_rat_of_bytes(spec_str_bytes(t.value)) {
                Option::None => Err(
                    ParseErrV::BadNumber { value: t.value, line: t.line, column: t.col },
                ),
                Option::Some(r) => Ok((AstV::Number(r), p + 1)),
            }
        } else if t.kind == TokenKind::Identifier {
            if p + 1 < toks.len() && toks[p + 1].kind == TokenKind::LeftParen {
                match spec_args(toks, p + 2, (fuel - 1) as nat) {
                    Err(e) => Err(e),
                    Ok((args, q)) => match spec_eat(toks, q, TokenKind::RightParen) {
                        Err(e) => Err(e),
                        Ok(q2) => Ok((AstV::Call { name: t.value, args }, q2)),
                    },
                }
            } else {
                Ok((AstV::Variable(t.value), p + 1))
            }
        } else if t.kind == TokenKind::LeftParen {
            match spec_expr(toks, p + 1, (fuel - 1) as nat) {
                Err(e) => Err(e),
                Ok((n, q)) => match spec_eat(toks, q, TokenKind::RightParen) {
                    Err(e) => Err(e),
                    Ok(q2) => Ok((n, q2)),
                },
            }
        } else {
            Err(spec_syntax_err(t, Option::None))
        };
        match base {
            Err(e) => Err(e),
            Ok((node, q)) => if 0 <= q < toks.len() && toks[q].kind == TokenKind::Power {
                match spec_factor(toks, q + 1, (fuel - 1) as nat) {
                    Err(e) => Err(e),
                    Ok((ex, q2)) => Ok(
                        (
                            AstV::Index {
                                sign: Sign::Pow,
                                base: Box::new(node),
                                exponent: Box::new(ex),
                            },
                            q2,
                        ),
                    ),
                }
            } else {
                Ok((node, q))
            },
        }
    }
}

/// A comma-separated list of at least one expression.
pub open spec fn spec_args(toks: Seq<TokenV>, p: int, fuel: nat) -> Result<
    (Seq<AstV>, int),
    ParseErrV,
>
    decreases fuel,
{
    if fuel == 0 {
        Err(ParseErrV::Depth)
    } else {
        match spec_expr(toks, p, (fuel - 1) as nat) {
            Err(e) => Err(e),
            Ok((n, q)) => if 0 <= q < toks.len() && toks[q].kind == TokenKind::Comma {
                match spec_args(toks, q + 1, (fuel - 1) as nat) {
                    Err(e) => Err(e),
                    Ok((rest, q2)) => Ok((seq![n] + rest, q2)),
                }
            } else {
                Ok((seq![n], q))
            },
        }
    }
}

/// `term := factor (('*'|'/')? factor)*`.
pub open spec fn spec_term(toks: Seq<TokenV>, p: int, fuel: nat) -> Result<(AstV, int), ParseErrV>
    decreases fuel,
{
    if fuel == 0 {
        Err(ParseErrV::Depth)
    } else {
        match spec_factor(toks, p, (fuel - 1) as nat) {
            Err(e) => Err(e),
            Ok((n, q)) => spec_term_rest(toks, q, n, (fuel - 1) as nat),
        }
    }
}

/// The multiplicative continuation after a first factor.
pub open spec fn spec_term_rest(toks: Seq<TokenV>, p: int, node: AstV, fuel: nat) -> Result<
    (AstV, int),
    ParseErrV,
>
    decreases fuel,
{
    if fuel == 0 {
        Err(ParseErrV::Depth)
    } else if p < 0 {
        Err(ParseErrV::Depth)
    } else if p >= toks.len() {
        Ok((node, p))
    } else {
        let t = toks[p];
        if t.kind == TokenKind::Multiply {
            match spec_factor(toks, p + 1, (fuel - 1) as nat) {
                Err(e) => Err(e),
                Ok((f, q)) => spec_term_rest(
                    toks,
                    q,
                    spec_append_term(node, Sign::Mul, f),
                    (fuel - 1) as nat,
                ),
            }
        } else if t.kind == TokenKind::Divide {
            match spec_factor(toks, p + 1, (fuel - 1) as nat) {
                Err(e) => Err(e),
                Ok((f, q)) => spec_term_rest(
                    toks,
                    q,
                    spec_append_term(node, Sign::Div, f),
                    (fuel - 1) as nat,
                ),
            }
        } else if t.kind == TokenKind::LeftParen || t.kind == TokenKind::Identifier || t.kind
            == TokenKind::Number {
            match spec_factor(toks, p, (fuel - 1) as nat) {
                Err(e) => Err(e),
                Ok((f, q)) => spec_term_rest(
                    toks,
                    q,
                    spec_append_term(node, Sign::Mul, f),
                    (fuel - 1) as nat,
                ),
            }
        } else {
            Ok((node, p))
        }
    }
}

/// `expr := term (('+'|'-'|'+-') term)*`.
pub open spec fn spec_expr(toks: Seq<TokenV>, p: int, fuel: nat) -> Result<(AstV, int), ParseErrV>
    decreases fuel,
{
    if fuel == 0 {
        Err(ParseErrV::Depth)
    } else {
        match spec_term(toks, p, (fuel - 1) as nat) {
            Err(e) => Err(e),
            Ok((n, q)) => spec_expr_rest(toks, q, n, (fuel - 1) as nat),
        }
    }
}

/// The additive continuation after a first term.
pub open spec fn spec_expr_rest(toks: Seq<TokenV>, p: int, node: AstV, fuel: nat) -> Result<
    (AstV, int),
    ParseErrV,
>
    decreases fuel,
{
    if fuel == 0 {
        Err(ParseErrV::Depth)
    } else if p < 0 {
        Err(ParseErrV::Depth)
    } else if p >= toks.len() {
        Ok((node, p))
    } else {
        let t = toks[p];
        if t.kind == TokenKind::Add || t.kind == TokenKind::Subtract || t.kind
            == TokenKind::AddSubtract {
            let sign = if t.kind == TokenKind::Add {
                Sign::Add
            } else if t.kind == TokenKind::Subtract {
                Sign::Sub
            } else {
                Sign::AddSub
            };
            match spec_term(toks, p + 1, (fuel - 1) as nat) {
                Err(e) => Err(e),
                Ok((f, q)) => spec_expr_rest(
                    toks,
                    q,
                    spec_append_expr(node, sign, f),
                    (fuel - 1) as nat,
                ),
            }
        } else {
            Ok((node, p))
        }
    }
}

/// `identity := expr ('=' expr)+`.
pub open spec fn spec_identity(toks: Seq<TokenV>, p: int, fuel: nat) -> Result<
    (AstV, int),
    ParseErrV,
>
    decreases fuel,
{
    if fuel == 0 {
        Err(ParseErrV::Depth)
    } else {
        match spec_expr(toks, p, (fuel - 1) as nat) {
            Err(e) => Err(e),
            Ok((n1, q)) => match spec_eat(toks, q, TokenKind::Assign) {
                Err(e) => Err(e),
                Ok(q2) => match spec_expr(toks, q2, (fuel - 1) as nat) {
                    Err(e) => Err(e),
                    Ok((n2, q3)) => spec_identity_rest(toks, q3, seq![n1, n2], (fuel - 1) as nat),
                },
            },
        }
    }
}

/// Further `= expr` members of an identity chain.
pub open spec fn spec_identity_rest(
    toks: Seq<TokenV>,
    p: int,
    members: Seq<AstV>,
    fuel: nat,
) -> Result<(AstV, int), ParseErrV>
    decreases fuel,
{
    if fuel == 0 {
        Err(ParseErrV::Depth)
    } else if p < 0 {
        Err(ParseErrV::Depth)
    } else if p < toks.len() && toks[p].kind == TokenKind::Assign {
        match spec_expr(toks, p + 1, (fuel - 1) as nat) {
            Err(e) => Err(e),
            Ok((n, q)) => spec_identity_rest(toks, q, members.push(n), (fuel - 1) as nat),
        }
    } else {
        Ok((AstV::Identity(members), p))
    }
}

/// `statement := identity ';' ('@' Identifier)?`.
pub open spec fn spec_statement(toks: Seq<TokenV>, p: int, fuel: nat) -> Result<
    (AstV, int),
    ParseErrV,
>
    decreases fuel,
{
    if fuel == 0 {
        Err(ParseErrV::Depth)
    } else {
        match spec_identity(toks, p, (fuel - 1) as nat) {
            Err(e) => Err(e),
            Ok((idn, q)) => match spec_eat(toks, q, TokenKind::Semicolon) {
                Err(e) => Err(e),
                Ok(q2) => if 0 <= q2 < toks.len() && toks[q2].kind == TokenKind::Command {
                    match spec_eat(toks, q2 + 1, TokenKind::Identifier) {
                        Err(e) => Err(e),
                        Ok(q3) => Ok(
                            (
                                AstV::Statement {
                                    body: Box::new(idn),
                                    command: Option::Some(toks[q2 + 1].value),
                                },
                                q3,
                            ),
                        ),
                    }
                } else {
                    Ok((AstV::Statement { body: Box::new(idn), command: Option::None }, q2))
                },
            },
        }
    }
}

/// Statements until the end of input.
pub open spec fn spec_statements(toks: Seq<TokenV>, p: int, fuel: nat) -> Result<
    (Seq<AstV>, int),
    ParseErrV,
>
    decreases fuel,
{
    if fuel == 0 {
        Err(ParseErrV::Depth)
    } else if p < 0 {
        Err(ParseErrV::Depth)
    } else if p >= toks.len() || toks[p].kind == TokenKind::EOF {
        Ok((Seq::empty(), p))
    } else {
        match spec_statement(toks, p, (fuel - 1) as nat) {
            Err(e) => Err(e),
            Ok((s, q)) => match spec_statements(toks, q, (fuel - 1) as nat) {
                Err(e) => Err(e),
                Ok((ss, q2)) => Ok((seq![s] + ss, q2)),
            },
        }
    }
}

/// The whole token stream of an input, ending with the end marker.
pub open spec fn spec_tokenize(st: LexState, fuel: nat) -> Result<Seq<TokenV>, ParseErrV>
    decreases fuel,
{
    if fuel == 0 {
        Err(ParseErrV::Depth)
    } else {
        match crate::lexer::spec_next_token(st) {
            Err(e) => Err(ParseErrV::Lexical(e)),
            Ok((t, st2)) => if t.kind == TokenKind::EOF {
                Ok(seq![t])
            } else {
                match spec_tokenize(st2, (fuel - 1) as nat) {
                    Err(e) => Err(e),
                    Ok(rest) => Ok(seq![t] + rest),
                }
            },
        }
    }
}

/// The cursor state a fresh input starts in.
pub open spec fn spec_initial_state(s: Seq<char>) -> LexState {
    LexState { bytes: spec_str_bytes(s), i: 0, line: 1, col: 1 }
}

/// The lexing budget for an input of `n` bytes.
pub open spec fn spec_lex_fuel(n: int) -> nat {
    if n + 2 <= u64::MAX {
        (n + 2) as nat
    } else {
        u64::MAX as nat
    }
}

/// The descent budget for a stream of `n` tokens.
pub open spec fn spec_parse_fuel(n: int) -> nat {
    if 4 * n + 16 <= u64::MAX {
        (4 * n + 16) as nat
    } else {
        u64::MAX as nat
    }
}


/// A one-element child vector.
fn one_node(a: AST) -> (out: Vec<Box<AST>>)
    ensures
        models(out@, 0) == seq![a.model()],
        out@.len() == 1,
        a.wf() ==> all_wf(out@),
    decreases a,
{
    let ghost m = a.model();
    let ghost w = a.wf();
    let mut out: Vec<Box<AST>> = Vec::new();
    out.push(Box::new(a));
    proof {
        lemma_models_index(out@, 0);
        assert(models(out@, 0) =~= seq![m]);
        lemma_all_wf_pointwise(out@);
    }
    out
}

/// A two-element child vector.
fn pair_nodes(a: AST, b: AST) -> (out: Vec<Box<AST>>)
    ensures
        models(out@, 0) == seq![a.model(), b.model()],
        out@.len() == 2,
        a.wf() && b.wf() ==> all_wf(out@),
    decreases a,
{
    let ghost ma = a.model();
    let ghost mb = b.model();
    let ghost wa = a.wf();
    let ghost wb = b.wf();
    let mut out: Vec<Box<AST>> = Vec::new();
    out.push(Box::new(a));
    out.push(Box::new(b));
    proof {
        lemma_models_index(out@, 0);
        assert(models(out@, 0) =~= seq![ma, mb]);
        lemma_all_wf_pointwise(out@);
    }
    out
}

/// Prepends a head to a child vector.
fn cons_node(head: AST, rest: Vec<Box<AST>>) -> (out: Vec<Box<AST>>)
    ensures
        models(out@, 0) == seq![head.model()] + models(rest@, 0),
        out@.len() == rest@.len() + 1,
        head.wf() && all_wf(rest@) ==> all_wf(out@),
    decreases head,
{
    let ghost hm = head.model();
    let ghost hw = head.wf();
    let ghost restv = rest@;
    proof {
        lemma_models_index(restv, 0);
        lemma_all_wf_pointwise(restv);
    }
    let mut out: Vec<Box<AST>> = Vec::new();
    out.push(Box::new(head));
    let mut rest = rest;
    out.append(&mut rest);
    proof {
        lemma_models_index(out@, 0);
        assert(models(out@, 0) =~= seq![hm] + models(restv, 0));
        lemma_all_wf_pointwise(out@);
    }
    out
}

/// The syntax error a token raises.
fn syntax_err(t: &Token, expected: Option<TokenKind>) -> (e: ParseError)
    ensures
        e.model() == spec_syntax_err(t.model(), expected),
{
    ParseError::Syntax {
        kind: t.kind,
        value: t.value.clone(),
        line: t.position.human.line,
        column: t.position.human.column,
        expected,
    }
}

/// Demands one token of the given kind.
fn eat(tokens: &Vec<Token>, p: usize, k: TokenKind) -> (r: Result<usize, ParseError>)
    ensures
        ({
            let m = spec_eat(token_models(tokens@, 0), p as int, k);
            match r {
                Ok(q) => m == Ok::<int, ParseErrV>(q as int) && q == p + 1 && q <= tokens@.len(),
                Err(e) => m == Err::<int, ParseErrV>(e.model()),
            }
        }),
{
    proof {
        lemma_token_models_index(tokens@, 0);
    }
    if p >= tokens.len() {
        return Err(ParseError::Depth);
    }
    if tokens[p].kind == k {
        Ok(p + 1)
    } else {
        Err(syntax_err(&tokens[p], Option::Some(k)))
    }
}

/// Joins a new additive operand into a chain.
fn append_expr(node: AST, sign: Sign, f: AST) -> (r: AST)
    requires
        node.wf(),
        f.wf(),
        sign == Sign::Add || sign == Sign::Sub || sign == Sign::AddSub,
    ensures
        r.model() == spec_append_expr(node.model(), sign, f.model()),
        r.wf(),
{
    match node {
        AST::Expr(e) => {
            if e.sign == sign {
                proof {
                    lemma_models_index(e.expr@, 0);
                    lemma_all_wf_pointwise(e.expr@);
                }
                let mut e = e;
                let ghost oldv = e.expr@;
                e.expr.push(Box::new(f));
                proof {
                    lemma_models_index(e.expr@, 0);
                    assert(models(e.expr@, 0) =~= models(oldv, 0).push(
                        e.expr@[e.expr@.len() - 1].model(),
                    ));
                    lemma_all_wf_pointwise(e.expr@);
                }
                AST::Expr(e)
            } else {
                AST::Expr(Expr { sign, expr: pair_nodes(AST::Expr(e), f) })
            }
        },
        other => AST::Expr(Expr { sign, expr: pair_nodes(other, f) }),
    }
}

/// Joins a new multiplicative operand into a chain.
fn append_term(node: AST, sign: Sign, f: AST) -> (r: AST)
    requires
        node.wf(),
        f.wf(),
        sign == Sign::Mul || sign == Sign::Div,
    ensures
        r.model() == spec_append_term(node.model(), sign, f.model()),
        r.wf(),
{
    match node {
        AST::Term(t) => {
            if t.sign == sign {
                proof {
                    lemma_models_index(t.term@, 0);
                    lemma_all_wf_pointwise(t.term@);
                }
                let mut t = t;
                let ghost oldv = t.term@;
                t.term.push(Box::new(f));
                proof {
                    lemma_models_index(t.term@, 0);
                    assert(models(t.term@, 0) =~= models(oldv, 0).push(
                        t.term@[t.term@.len() - 1].model(),
                    ));
                    lemma_all_wf_pointwise(t.term@);
                }
                AST::Term(t)
            } else {
                AST::Term(Term { sign, term: pair_nodes(AST::Term(t), f) })
            }
        },
        other => AST::Term(Term { sign, term: pair_nodes(other, f) }),
    }
}

/// Mirrors `spec_factor`.
fn factor(tokens: &Vec<Token>, p: usize, fuel: u64) -> (r: Result<(AST, usize), ParseError>)
    ensures
        ({
            let m = spec_factor(token_models(tokens@, 0), p as int, fuel as nat);
            match r {
                Ok((n, q)) => m == Ok::<(AstV, int), ParseErrV>((n.model(), q as int)) && n.wf(),
                Err(e) => m == Err::<(AstV, int), ParseErrV>(e.model()),
            }
        }),
    decreases fuel,
{
    proof {
        lemma_token_models_index(tokens@, 0);
    }
    if fuel == 0 {
        return Err(ParseError::Depth);
    }
    if p >= tokens.len() {
        return Err(ParseError::Depth);
    }
    let t = &tokens[p];
    let base: (AST, usize) = if t.kind == TokenKind::Add {
        match factor(tokens, p + 1, fuel - 1) {
            Err(e) => {
                return Err(e);
            },
            Ok((n, q)) => (AST::Unary(Unary { sign: Sign::Add, unary: Box::new(n) }), q),
        }
    } else if t.kind == TokenKind::Subtract {
        match factor(tokens, p + 1, fuel - 1) {
            Err(e) => {
                return Err(e);
            },
            Ok((n, q)) => (AST::Unary(Unary { sign: Sign::Sub, unary: Box::new(n) }), q),
        }
    } else if t.kind == TokenKind::AddSubtract {
        match factor(tokens, p + 1, fuel - 1) {
            Err(e) => {
                return Err(e);
            },
            Ok((n, q)) => (AST::Unary(Unary { sign: Sign::AddSub, unary: Box::new(n) }), q),
        }
    } else if t.kind == TokenKind::Number {
        match rat_of_value(&t.value) {
            Option::None => {
                return Err(
                    ParseError::BadNumber {
                        value: t.value.clone(),
                        line: t.position.human.line,
                        column: t.position.human.column,
                    },
                );
            },
            Option::Some(rv) => (AST::Number(rv), p + 1),
        }
    } else if t.kind == TokenKind::Identifier {
        if p + 1 < tokens.len() && tokens[p + 1].kind == TokenKind::LeftParen {
            let (args, q) = match args(tokens, p + 2, fuel - 1) {
                Err(e) => {
                    return Err(e);
                },
                Ok(a) => a,
            };
            let q2 = match eat(tokens, q, TokenKind::RightParen) {
                Err(e) => {
                    return Err(e);
                },
                Ok(q2) => q2,
            };
            (AST::Call(Call { name: t.value.clone(), call: args }), q2)
        } else {
            (AST::Variable(t.value.clone()), p + 1)
        }
    } else if t.kind == TokenKind::LeftParen {
        let (n, q) = match expr(tokens, p + 1, fuel - 1) {
            Err(e) => {
                return Err(e);
            },
            Ok(a) => a,
        };
        let q2 = match eat(tokens, q, TokenKind::RightParen) {
            Err(e) => {
                return Err(e);
            },
            Ok(q2) => q2,
        };
        (n, q2)
    } else {
        return Err(syntax_err(t, Option::None));
    };
    let (node, q) = base;
    if q < tokens.len() && tokens[q].kind == TokenKind::Power {
        let (ex, q2) = match factor(tokens, q + 1, fuel - 1) {
            Err(e) => {
                return Err(e);
            },
            Ok(a) => a,
        };
        let ghost nw = node.wf();
        let ghost xw = ex.wf();
        let idx = AST::Index(Index { sign: Sign::Pow, base: Box::new(node), exponent: Box::new(ex) });
        proof {
            assert(idx.wf() == (nw && xw));
        }
        Ok((idx, q2))
    } else {
        Ok((node, q))
    }
}

/// Mirrors `spec_args`.
fn args(tokens: &Vec<Token>, p: usize, fuel: u64) -> (r: Result<
    (Vec<Box<AST>>, usize),
    ParseError,
>)
    ensures
        ({
            let m = spec_args(token_models(tokens@, 0), p as int, fuel as nat);
            match r {
                Ok((v, q)) => m == Ok::<(Seq<AstV>, int), ParseErrV>((models(v@, 0), q as int))
                    && all_wf(v@) && v@.len() >= 1,
                Err(e) => m == Err::<(Seq<AstV>, int), ParseErrV>(e.model()),
            }
        }),
    decreases fuel,
{
    proof {
        lemma_token_models_index(tokens@, 0);
    }
    if fuel == 0 {
        return Err(ParseError::Depth);
    }
    let (n, q) = match expr(tokens, p, fuel - 1) {
        Err(e) => {
            return Err(e);
        },
        Ok(a) => a,
    };
    if q < tokens.len() && tokens[q].kind == TokenKind::Comma {
        let (rest, q2) = match args(tokens, q + 1, fuel - 1) {
            Err(e) => {
                return Err(e);
            },
            Ok(a) => a,
        };
        Ok((cons_node(n, rest), q2))
    } else {
        Ok((one_node(n), q))
    }
}

/// Mirrors `spec_term`.
fn term(tokens: &Vec<Token>, p: usize, fuel: u64) -> (r: Result<(AST, usize), ParseError>)
    ensures
        ({
            let m = spec_term(token_models(tokens@, 0), p as int, fuel as nat);
            match r {
                Ok((n, q)) => m == Ok::<(AstV, int), ParseErrV>((n.model(), q as int)) && n.wf(),
                Err(e) => m == Err::<(AstV, int), ParseErrV>(e.model()),
            }
        }),
    decreases fuel,
{
    if fuel == 0 {
        return Err(ParseError::Depth);
    }
    let (n, q) = match factor(tokens, p, fuel - 1) {
        Err(e) => {
            return Err(e);
        },
        Ok(a) => a,
    };
    term_rest(tokens, q, n, fuel - 1)
}

/// Mirrors `spec_term_rest`.
fn term_rest(tokens: &Vec<Token>, p: usize, node: AST, fuel: u64) -> (r: Result<
    (AST, usize),
    ParseError,
>)
    requires
        node.wf(),
    ensures
        ({
            let m = spec_term_rest(token_models(tokens@, 0), p as int, node.model(), fuel as nat);
            match r {
                Ok((n, q)) => m == Ok::<(AstV, int), ParseErrV>((n.model(), q as int)) && n.wf(),
                Err(e) => m == Err::<(AstV, int), ParseErrV>(e.model()),
            }
        }),
    decreases fuel,
{
    proof {
        lemma_token_models_index(tokens@, 0);
    }
    if fuel == 0 {
        return Err(ParseError::Depth);
    }
    if p >= tokens.len() {
        return Ok((node, p));
    }
    let kind = tokens[p].kind;
    if kind == TokenKind::Multiply {
        let (f, q) = match factor(tokens, p + 1, fuel - 1) {
            Err(e) => {
                return Err(e);
            },
            Ok(a) => a,
        };
        term_rest(tokens, q, append_term(node, Sign::Mul, f), fuel - 1)
    } else if kind == TokenKind::Divide {
        let (f, q) = match factor(tokens, p + 1, fuel - 1) {
            Err(e) => {
                return Err(e);
            },
            Ok(a) => a,
        };
        term_rest(tokens, q, append_term(node, Sign::Div, f), fuel - 1)
    } else if kind == TokenKind::LeftParen || kind == TokenKind::Identifier || kind
        == TokenKind::Number {
        let (f, q) = match factor(tokens, p, fuel - 1) {
            Err(e) => {
                return Err(e);
            },
            Ok(a) => a,
        };
        term_rest(tokens, q, append_term(node, Sign::Mul, f), fuel - 1)
    } else {
        Ok((node, p))
    }
}

/// Mirrors `spec_expr`.
fn expr(tokens: &Vec<Token>, p: usize, fuel: u64) -> (r: Result<(AST, usize), ParseError>)
    ensures
        ({
            let m = spec_expr(token_models(tokens@, 0), p as int, fuel as nat);
            match r {
                Ok((n, q)) => m == Ok::<(AstV, int), ParseErrV>((n.model(), q as int)) && n.wf(),
                Err(e) => m == Err::<(AstV, int), ParseErrV>(e.model()),
            }
        }),
    decreases fuel,
{
    if fuel == 0 {
        return Err(ParseError::Depth);
    }
    let (n, q) = match term(tokens, p, fuel - 1) {
        Err(e) => {
            return Err(e);
        },
        Ok(a) => a,
    };
    expr_rest(tokens, q, n, fuel - 1)
}

/// Mirrors `spec_expr_rest`.
fn expr_rest(tokens: &Vec<Token>, p: usize, node: AST, fuel: u64) -> (r: Result<
    (AST, usize),
    ParseError,
>)
    requires
        node.wf(),
    ensures
        ({
            let m = spec_expr_rest(token_models(tokens@, 0), p as int, node.model(), fuel as nat);
            match r {
                Ok((n, q)) => m == Ok::<(AstV, int), ParseErrV>((n.model(), q as int)) && n.wf(),
                Err(e) => m == Err::<(AstV, int), ParseErrV>(e.model()),
            }
        }),
    decreases fuel,
{
    proof {
        lemma_token_models_index(tokens@, 0);
    }
    if fuel == 0 {
        return Err(ParseError::Depth);
    }
    if p >= tokens.len() {
        return Ok((node, p));
    }
    let kind = tokens[p].kind;
    if kind == TokenKind::Add || kind == TokenKind::Subtract || kind == TokenKind::AddSubtract {
        let sign = if kind == TokenKind::Add {
            Sign::Add
        } else if kind == TokenKind::Subtract {
            Sign::Sub
        } else {
            Sign::AddSub
        };
        let (f, q) = match term(tokens, p + 1, fuel - 1) {
            Err(e) => {
                return Err(e);
            },
            Ok(a) => a,
        };
        expr_rest(tokens, q, append_expr(node, sign, f), fuel - 1)
    } else {
        Ok((node, p))
    }
}

/// Mirrors `spec_identity`.
fn identity(tokens: &Vec<Token>, p: usize, fuel: u64) -> (r: Result<(AST, usize), ParseError>)
    ensures
        ({
            let m = spec_identity(token_models(tokens@, 0), p as int, fuel as nat);
            match r {
                Ok((n, q)) => m == Ok::<(AstV, int), ParseErrV>((n.model(), q as int)) && n.wf()
                    && (n is Identity),
                Err(e) => m == Err::<(AstV, int), ParseErrV>(e.model()),
            }
        }),
    decreases fuel,
{
    if fuel == 0 {
        return Err(ParseError::Depth);
    }
    let (n1, q) = match expr(tokens, p, fuel - 1) {
        Err(e) => {
            return Err(e);
        },
        Ok(a) => a,
    };
    let q2 = match eat(tokens, q, TokenKind::Assign) {
        Err(e) => {
            return Err(e);
        },
        Ok(q2) => q2,
    };
    let (n2, q3) = match expr(tokens, q2, fuel - 1) {
        Err(e) => {
            return Err(e);
        },
        Ok(a) => a,
    };
    identity_rest(tokens, q3, pair_nodes(n1, n2), fuel - 1)
}

/// Mirrors `spec_identity_rest`.
fn identity_rest(tokens: &Vec<Token>, p: usize, members: Vec<Box<AST>>, fuel: u64) -> (r: Result<
    (AST, usize),
    ParseError,
>)
    requires
        all_wf(members@),
        members@.len() >= 2,
    ensures
        ({
            let m = spec_identity_rest(
                token_models(tokens@, 0),
                p as int,
                models(members@, 0),
                fuel as nat,
            );
            match r {
                Ok((n, q)) => m == Ok::<(AstV, int), ParseErrV>((n.model(), q as int)) && n.wf()
                    && (n is Identity),
                Err(e) => m == Err::<(AstV, int), ParseErrV>(e.model()),
            }
        }),
    decreases fuel,
{
    proof {
        lemma_token_models_index(tokens@, 0);
        lemma_models_index(members@, 0);
    }
    if fuel == 0 {
        return Err(ParseError::Depth);
    }
    if p < tokens.len() && tokens[p].kind == TokenKind::Assign {
        let (n, q) = match expr(tokens, p + 1, fuel - 1) {
            Err(e) => {
                return Err(e);
            },
            Ok(a) => a,
        };
        proof {
            lemma_all_wf_pointwise(members@);
        }
        let mut members = members;
        let ghost oldv = members@;
        members.push(Box::new(n));
        proof {
            lemma_models_index(members@, 0);
            assert(models(members@, 0) =~= models(oldv, 0).push(
                members@[members@.len() - 1].model(),
            ));
            lemma_all_wf_pointwise(members@);
        }
        identity_rest(tokens, q, members, fuel - 1)
    } else {
        proof {
            lemma_all_wf_pointwise(members@);
        }
        Ok((AST::Identity(Identity { identity: members }), p))
    }
}

/// Mirrors `spec_statement`.
fn statement(tokens: &Vec<Token>, p: usize, fuel: u64) -> (r: Result<(AST, usize), ParseError>)
    ensures
        ({
            let m = spec_statement(token_models(tokens@, 0), p as int, fuel as nat);
            match r {
                Ok((n, q)) => m == Ok::<(AstV, int), ParseErrV>((n.model(), q as int)) && n.wf(),
                Err(e) => m == Err::<(AstV, int), ParseErrV>(e.model()),
            }
        }),
    decreases fuel,
{
    proof {
        lemma_token_models_index(tokens@, 0);
    }
    if fuel == 0 {
        return Err(ParseError::Depth);
    }
    let (idn, q) = match identity(tokens, p, fuel - 1) {
        Err(e) => {
            return Err(e);
        },
        Ok(a) => a,
    };
    let q2 = match eat(tokens, q, TokenKind::Semicolon) {
        Err(e) => {
            return Err(e);
        },
        Ok(q2) => q2,
    };
    if q2 < tokens.len() && tokens[q2].kind == TokenKind::Command {
        let q3 = match eat(tokens, q2 + 1, TokenKind::Identifier) {
            Err(e) => {
                return Err(e);
            },
            Ok(q3) => q3,
        };
        Ok(
            (
                AST::Statement(
                    Statement {
                        statement: Box::new(idn),
                        command: Option::Some(tokens[q2 + 1].value.clone()),
                    },
                ),
                q3,
            ),
        )
    } else {
        Ok((AST::Statement(Statement { statement: Box::new(idn), command: Option::None }), q2))
    }
}

/// Mirrors `spec_statements`.
fn statements(tokens: &Vec<Token>, p: usize, fuel: u64) -> (r: Result<
    (Vec<Box<AST>>, usize),
    ParseError,
>)
    ensures
        ({
            let m = spec_statements(token_models(tokens@, 0), p as int, fuel as nat);
            match r {
                Ok((v, q)) => m == Ok::<(Seq<AstV>, int), ParseErrV>((models(v@, 0), q as int))
                    && all_wf(v@),
                Err(e) => m == Err::<(Seq<AstV>, int), ParseErrV>(e.model()),
            }
        }),
    decreases fuel,
{
    proof {
        lemma_token_models_index(tokens@, 0);
    }
    if fuel == 0 {
        return Err(ParseError::Depth);
    }
    if p >= tokens.len() || tokens[p].kind == TokenKind::EOF {
        let out: Vec<Box<AST>> = Vec::new();
        proof {
            assert(models(out@, 0) =~= Seq::<AstV>::empty());
        }
        return Ok((out, p));
    }
    let (s, q) = match statement(tokens, p, fuel - 1) {
        Err(e) => {
            return Err(e);
        },
        Ok(a) => a,
    };
    let (ss, q2) = match statements(tokens, q, fuel - 1) {
        Err(e) => {
            return Err(e);
        },
        Ok(a) => a,
    };
    Ok((cons_node(s, ss), q2))
}

/// Appends one token in front of a stream.
fn cons_token(head: Token, rest: Vec<Token>) -> (out: Vec<Token>)
    ensures
        token_models(out@, 0) == seq![head.model()] + token_models(rest@, 0),
{
    let ghost hm = head.model();
    let ghost restv = rest@;
    proof {
        lemma_token_models_index(restv, 0);
    }
    let mut out: Vec<Token> = Vec::new();
    out.push(head);
    let mut rest = rest;
    out.append(&mut rest);
    proof {
        lemma_token_models_index(out@, 0);
        assert(token_models(out@, 0) =~= seq![hm] + token_models(restv, 0));
    }
    out
}

/// Reads the whole token stream of a lexer.
fn lex_all(lx: &mut Lexer, fuel: u64) -> (r: Result<Vec<Token>, ParseError>)
    requires
        old(lx).wf(),
    ensures
        ({
            let m = spec_tokenize(old(lx).model(), fuel as nat);
            match r {
                Ok(v) => m == Ok::<Seq<TokenV>, ParseErrV>(token_models(v@, 0)),
                Err(e) => m == Err::<Seq<TokenV>, ParseErrV>(e.model()),
            }
        }),
        final(lx).wf(),
    decreases fuel,
{
    if fuel == 0 {
        return Err(ParseError::Depth);
    }
    let t = match lx.get_next_token() {
        Err(e) => {
            return Err(ParseError::Lexical(e));
        },
        Ok(t) => t,
    };
    if t.kind == TokenKind::EOF {
        let ghost tm = t.model();
        let mut out: Vec<Token> = Vec::new();
        out.push(t);
        proof {
            lemma_token_models_index(out@, 0);
            assert(token_models(out@, 0) =~= seq![tm]);
        }
        return Ok(out);
    }
    let rest = match lex_all(lx, fuel - 1) {
        Err(e) => {
            return Err(e);
        },
        Ok(v) => v,
    };
    Ok(cons_token(t, rest))
}

/// The parser: a fully read token stream and a cursor.
pub struct Parser {
    tokens: Vec<Token>,
    pos: usize,
}

impl Parser {
    /// The models of the tokens the parser holds.
    pub closed spec fn toks(self) -> Seq<TokenV> {
        token_models(self.tokens@, 0)
    }

    /// The cursor position.
    pub closed spec fn spec_pos(self) -> int {
        self.pos as int
    }

    /// Tokenizes the whole input up front; the first lexical fault is
    /// the result.
    pub fn new(input: String) -> (r: Result<Parser, ParseError>)
        ensures
            ({
                let m = spec_tokenize(
                    spec_initial_state(input@),
                    spec_lex_fuel(spec_str_bytes(input@).len() as int),
                );
                match r {
                    Ok(p) => m == Ok::<Seq<TokenV>, ParseErrV>(p.toks()) && p.spec_pos() == 0,
                    Err(e) => m == Err::<Seq<TokenV>, ParseErrV>(e.model()),
                }
            }),
    {
        let n = input.as_str().as_bytes_vec().len();
        let fuel: u64 = if (n as u64) <= u64::MAX - 2 {
            n as u64 + 2
        } else {
            u64::MAX
        };
        let mut lx = Lexer::new(input);
        let tokens = match lex_all(&mut lx, fuel) {
            Err(e) => {
                return Err(e);
            },
            Ok(v) => v,
        };
        Ok(Parser { tokens, pos: 0 })
    }

    /// Parses the stream from the cursor into statements; the cursor
    /// advances past what was consumed on success and stays put on an
    /// error.
    pub fn parse(&mut self) -> (r: Result<Vec<Box<AST>>, ParseError>)
        ensures
            final(self).toks() == old(self).toks(),
            ({
                let m = spec_statements(
                    old(self).toks(),
                    old(self).spec_pos(),
                    spec_parse_fuel(old(self).toks().len() as int),
                );
                match r {
                    Ok(v) => m == Ok::<(Seq<AstV>, int), ParseErrV>(
                        (models(v@, 0), final(self).spec_pos()),
                    ) && all_wf(v@),
                    Err(e) => m == Err::<(Seq<AstV>, int), ParseErrV>(e.model())
                        && final(self).spec_pos() == old(self).spec_pos(),
                }
            }),
    {
        proof {
            lemma_token_models_index(self.tokens@, 0);
        }
        let n = self.tokens.len() as u64;
        let fuel: u64 = if n <= (u64::MAX - 16) / 4 {
            4 * n + 16
        } else {
            u64::MAX
        };
        match statements(&self.tokens, self.pos, fuel) {
            Err(e) => Err(e),
            Ok((v, q)) => {
                self.pos = q;
                Ok(v)
            },
        }
    }
}

} // verus!

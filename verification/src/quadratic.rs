//! Quadratic coefficient extraction and the closed-form solver.
//!
//! `from` reads an expanded, single-sided equation as
//! `a*var^2 + b*var + c = 0`: every additive term that carries a
//! `var^2` factor feeds its remainder to `a`, one that carries a
//! bare `var` factor feeds `b`, and everything else goes to
//! `c`. A subtracted term counts negatively. `one_side` reduces an
//! identity to single-sided form by subtracting the right coefficients
//! from the left ones.
//!
//! `solve` cascades: a quadratic formula when `a` is nonzero at zero, a
//! linear solution when only `b` is, the literal `c` when it expands to
//! a number, and otherwise a recursive solve of `c` for the other
//! variable of the `x`/`y` pair, with the variable-switch depth capped
//! so that every run terminates.

use crate::ast::{
    all_wf, lemma_all_wf_pointwise, lemma_models_index, models, AstV, Call, Expr, Identity, Index,
    Sign, Term, Unary, AST,
};
use crate::eval::{eval, spec_eval, EvalError, EvalErrorV};
use crate::expand::{expand, spec_expand};
use crate::rat::{NumError, Rat};
use vstd::prelude::*;

verus! {

/// Why extraction or solving stopped.
#[derive(Debug, Clone, PartialEq, Eq)]
pub enum SolveError {
    /// Extraction met a node shape it does not support.
    Shape,
    /// Exact arithmetic failed while folding or negating.
    Numeric(NumError),
    /// A coefficient could not be evaluated at zero.
    Eval(EvalError),
    /// The variable-switch depth cap was reached.
    Depth,
}

/// The model of a solver error.
pub enum SolveErrV {
    Shape,
    Numeric(NumError),
    Eval(EvalErrorV),
    Depth,
}

impl SolveError {
    /// The model of this error.
    pub open spec fn model(self) -> SolveErrV {
        match self {
            SolveError::Shape => SolveErrV::Shape,
            SolveError::Numeric(e) => SolveErrV::Numeric(e),
            SolveError::Eval(e) => SolveErrV::Eval(e.model()),
            SolveError::Depth => SolveErrV::Depth,
        }
    }
}

/// The model of a coefficient triple.
pub struct QuadV {
    pub a: AstV,
    pub b: AstV,
    pub c: AstV,
    pub var: Seq<char>,
}

/// The literal one.
pub open spec fn spec_one() -> AstV {
    AstV::Number(Rat { num: 1, den: 1 })
}

/// The accumulator sentinel: a literal zero.
pub open spec fn spec_zero() -> AstV {
    AstV::Number(Rat { num: 0, den: 1 })
}

/// Is this exactly `var^2`?
pub open spec fn spec_is_sq(t: AstV, var: Seq<char>) -> bool {
    t == (AstV::Index {
        sign: Sign::Pow,
        base: Box::new(AstV::Variable(var)),
        exponent: Box::new(AstV::Number(Rat { num: 2, den: 1 })),
    })
}

/// The first index holding `var^2`, or the length.
pub open spec fn spec_find_sq(children: Seq<AstV>, i: int, var: Seq<char>) -> int
    decreases children.len() - i,
{
    if i < 0 || i >= children.len() {
        children.len() as int
    } else if spec_is_sq(children[i], var) {
        i
    } else {
        spec_find_sq(children, i + 1, var)
    }
}

/// The first index holding the bare variable, or the length.
pub open spec fn spec_find_var(children: Seq<AstV>, i: int, var: Seq<char>) -> int
    decreases children.len() - i,
{
    if i < 0 || i >= children.len() {
        children.len() as int
    } else if children[i] == AstV::Variable(var) {
        i
    } else {
        spec_find_var(children, i + 1, var)
    }
}

/// A multiplicative chain with one child struck out, collapsed when a
/// single factor remains.
pub open spec fn spec_strip(sign: Sign, children: Seq<AstV>, idx: int) -> AstV {
    let rest = children.subrange(0, idx) + children.subrange(idx + 1, children.len() as int);
    if rest.len() == 1 {
        rest[0]
    } else {
        AstV::Term { sign, children: rest }
    }
}

/// A division chain whose leading factor is struck out: the remainder
/// divides one by the remaining divisors.
pub open spec fn spec_div_remainder(children: Seq<AstV>) -> AstV {
    AstV::Term { sign: Sign::Div, children: seq![spec_one()] + children.drop_first() }
}

/// Which coefficient one additive term feeds, and what it adds there:
/// `0` for `a`, `1` for `b`, `2` for `c`.
pub open spec fn spec_classify(t: AstV, var: Seq<char>) -> (int, AstV) {
    if spec_is_sq(t, var) {
        (0, spec_one())
    } else if t == AstV::Variable(var) {
        (1, spec_one())
    } else {
        match t {
            AstV::Term { sign: Sign::Mul, children } => {
                let isq = spec_find_sq(children, 0, var);
                if isq < children.len() {
                    (0, spec_strip(Sign::Mul, children, isq))
                } else {
                    let iv = spec_find_var(children, 0, var);
                    if iv < children.len() {
                        (1, spec_strip(Sign::Mul, children, iv))
                    } else {
                        (2, t)
                    }
                }
            },
            AstV::Term { sign: Sign::Div, children } => {
                if children.len() >= 1 && spec_is_sq(children[0], var) {
                    (0, spec_div_remainder(children))
                } else if children.len() >= 1 && children[0] == AstV::Variable(var) {
                    (1, spec_div_remainder(children))
                } else {
                    (2, t)
                }
            },
            _ => (2, t),
        }
    }
}

/// Joins a piece to an accumulator: the first piece replaces the
/// sentinel, later ones chain under `+`.
pub open spec fn spec_accum(acc: AstV, add: AstV) -> AstV {
    if acc == spec_zero() {
        add
    } else {
        AstV::Expr { sign: Sign::Add, children: seq![acc, add] }
    }
}

/// A negated piece: a literal negates exactly, anything else is
/// wrapped in a unary minus.
pub open spec fn spec_negate(t: AstV) -> Result<AstV, NumError> {
    match t {
        AstV::Number(r) => match r.spec_neg() {
            Option::None => Err(NumError::Overflow),
            Option::Some(m) => Ok(AstV::Number(m)),
        },
        _ => Ok(AstV::Unary { sign: Sign::Sub, operand: Box::new(t) }),
    }
}

/// Scans the additive terms from index `i` on into the three
/// accumulators; under `neg_rest` every term after the first is
/// subtracted.
pub open spec fn spec_scan(
    children: Seq<AstV>,
    i: int,
    neg_rest: bool,
    a: AstV,
    b: AstV,
    c: AstV,
    var: Seq<char>,
) -> Result<(AstV, AstV, AstV), SolveErrV>
    decreases children.len() - i,
{
    if i < 0 || i >= children.len() {
        Ok((a, b, c))
    } else {
        let (bucket, piece) = spec_classify(children[i], var);
        let signed = if neg_rest && i > 0 {
            spec_negate(piece)
        } else {
            Ok(piece)
        };
        match signed {
            Err(e) => Err(SolveErrV::Numeric(e)),
            Ok(k) => if bucket == 0 {
                spec_scan(children, i + 1, neg_rest, spec_accum(a, k), b, c, var)
            } else if bucket == 1 {
                spec_scan(children, i + 1, neg_rest, a, spec_accum(b, k), c, var)
            } else {
                spec_scan(children, i + 1, neg_rest, a, b, spec_accum(c, k), var)
            },
        }
    }
}

/// Extraction from one side of an identity: an additive chain is
/// scanned term by term, anything else is one positive term.
pub open spec fn spec_from_side(m: AstV, var: Seq<char>) -> Result<(AstV, AstV, AstV), SolveErrV> {
    match m {
        AstV::Expr { sign: Sign::Add, children } => spec_scan(
            children,
            0,
            false,
            spec_zero(),
            spec_zero(),
            spec_zero(),
            var,
        ),
        AstV::Expr { sign: Sign::Sub, children } => spec_scan(
            children,
            0,
            true,
            spec_zero(),
            spec_zero(),
            spec_zero(),
            var,
        ),
        AstV::Expr { sign: _, children } => Err(SolveErrV::Shape),
        _ => spec_scan(seq![m], 0, false, spec_zero(), spec_zero(), spec_zero(), var),
    }
}

/// Single-sided reduction: left coefficients minus right coefficients.
pub open spec fn spec_one_side(l: (AstV, AstV, AstV), r: (AstV, AstV, AstV), var: Seq<char>) -> QuadV {
    QuadV {
        a: AstV::Expr { sign: Sign::Sub, children: seq![l.0, r.0] },
        b: AstV::Expr { sign: Sign::Sub, children: seq![l.1, r.1] },
        c: AstV::Expr { sign: Sign::Sub, children: seq![l.2, r.2] },
        var,
    }
}

/// Extraction from a statement, an identity (its first two members),
/// or a bare additive chain; anything else is a shape error.
pub open spec fn spec_from(a: AstV, var: Seq<char>) -> Result<QuadV, SolveErrV>
    decreases a,
{
    match a {
        AstV::Statement { body, command } => spec_from(*body, var),
        AstV::Identity(members) => if members.len() < 2 {
            Err(SolveErrV::Shape)
        } else {
            match spec_from_side(members[0], var) {
                Err(e) => Err(e),
                Ok(l) => match spec_from_side(members[1], var) {
                    Err(e) => Err(e),
                    Ok(r) => Ok(spec_one_side(l, r, var)),
                },
            }
        },
        AstV::Expr { sign, children } => match spec_from_side(a, var) {
            Err(e) => Err(e),
            Ok(t) => Ok(QuadV { a: t.0, b: t.1, c: t.2, var }),
        },
        _ => Err(SolveErrV::Shape),
    }
}

/// The quadratic-formula tree `(-b +- sqrt(b^2 - 4*a*c)) / (2*a)`.
pub open spec fn spec_formula(q: QuadV) -> AstV {
    AstV::Identity(
        seq![
            AstV::Variable(q.var),
            AstV::Term {
                sign: Sign::Div,
                children: seq![
                    AstV::Expr {
                        sign: Sign::AddSub,
                        children: seq![
                            AstV::Unary { sign: Sign::Sub, operand: Box::new(q.b) },
                            AstV::Call {
                                name: "sqrt"@,
                                args: seq![
                                    AstV::Expr {
                                        sign: Sign::Sub,
                                        children: seq![
                                            AstV::Index {
                                                sign: Sign::Pow,
                                                base: Box::new(q.b),
                                                exponent: Box::new(
                                                    AstV::Number(Rat { num: 2, den: 1 }),
                                                ),
                                            },
                                            AstV::Term {
                                                sign: Sign::Mul,
                                                children: seq![
                                                    AstV::Number(Rat { num: 4, den: 1 }),
                                                    q.a,
                                                    q.c,
                                                ],
                                            },
                                        ],
                                    },
                                ],
                            },
                        ],
                    },
                    AstV::Term {
                        sign: Sign::Mul,
                        children: seq![AstV::Number(Rat { num: 2, den: 1 }), q.a],
                    },
                ],
            },
        ],
    )
}

/// The linear-solution tree `var = (-c) / b`.
pub open spec fn spec_linear(q: QuadV) -> AstV {
    AstV::Identity(
        seq![
            AstV::Variable(q.var),
            AstV::Term {
                sign: Sign::Div,
                children: seq![AstV::Unary { sign: Sign::Sub, operand: Box::new(q.c) }, q.b],
            },
        ],
    )
}

/// The zero rational.
pub open spec fn spec_rat0() -> Rat {
    Rat { num: 0, den: 1 }
}

/// The other variable of the hardcoded pair.
pub open spec fn spec_other_var(var: Seq<char>) -> Seq<char> {
    if var == "y"@ {
        "x"@
    } else {
        "y"@
    }
}

/// The solver cascade, with the variable-switch depth bounded by
/// `fuel`. Each branch is chosen by evaluating the coefficient at zero.
pub open spec fn spec_solve(q: QuadV, fuel: nat) -> Result<AstV, SolveErrV>
    decreases fuel,
{
    if fuel == 0 {
        Err(SolveErrV::Depth)
    } else {
        match spec_eval(q.a, spec_rat0()) {
            Err(e) => Err(SolveErrV::Eval(e)),
            Ok(vs) => if vs.len() == 0 {
                Err(SolveErrV::Shape)
            } else if !vs[0].spec_is_zero() {
                Ok(spec_formula(q))
            } else {
                match spec_eval(q.b, spec_rat0()) {
                    Err(e) => Err(SolveErrV::Eval(e)),
                    Ok(ws) => if ws.len() == 0 {
                        Err(SolveErrV::Shape)
                    } else if !ws[0].spec_is_zero() {
                        Ok(spec_linear(q))
                    } else {
                        match spec_expand(q.c) {
                            Err(e) => Err(SolveErrV::Numeric(e)),
                            Ok(ec) => if ec is Number {
                                Ok(AstV::Identity(seq![AstV::Variable(q.var), q.c]))
                            } else {
                                match spec_from(q.c, spec_other_var(q.var)) {
                                    Err(e) => Err(e),
                                    Ok(q2) => match spec_solve(q2, (fuel - 1) as nat) {
                                        Err(e) => Err(e),
                                        Ok(inner) => Ok(
                                            AstV::Identity(seq![AstV::Variable(q.var), inner]),
                                        ),
                                    },
                                }
                            },
                        }
                    },
                }
            },
        }
    }
}

/// The variable-switch depth cap of the public solver.
pub open spec fn spec_solve_fuel() -> nat {
    2
}


/// A one-element child vector.
fn one_node(a: AST) -> (out: Vec<Box<AST>>)
    ensures
        models(out@, 0) == seq![a.model()],
        out@.len() == 1,
        a.wf() ==> all_wf(out@),
    decreases a,
{
    let ghost m = a.model();
    let ghost w = a.wf();
    let mut out: Vec<Box<AST>> = Vec::new();
    out.push(Box::new(a));
    proof {
        lemma_models_index(out@, 0);
        assert(models(out@, 0) =~= seq![m]);
        lemma_all_wf_pointwise(out@);
    }
    out
}

/// A two-element child vector.
fn pair_nodes(a: AST, b: AST) -> (out: Vec<Box<AST>>)
    ensures
        models(out@, 0) == seq![a.model(), b.model()],
        out@.len() == 2,
        a.wf() && b.wf() ==> all_wf(out@),
    decreases a,
{
    let ghost ma = a.model();
    let ghost mb = b.model();
    let ghost wa = a.wf();
    let ghost wb = b.wf();
    let mut out: Vec<Box<AST>> = Vec::new();
    out.push(Box::new(a));
    out.push(Box::new(b));
    proof {
        lemma_models_index(out@, 0);
        assert(models(out@, 0) =~= seq![ma, mb]);
        lemma_all_wf_pointwise(out@);
    }
    out
}

/// A three-element child vector.
fn triple_nodes(a: AST, b: AST, c: AST) -> (out: Vec<Box<AST>>)
    ensures
        models(out@, 0) == seq![a.model(), b.model(), c.model()],
        out@.len() == 3,
        a.wf() && b.wf() && c.wf() ==> all_wf(out@),
    decreases a,
{
    let ghost ma = a.model();
    let ghost mb = b.model();
    let ghost mc = c.model();
    let ghost wa = a.wf();
    let ghost wb = b.wf();
    let ghost wc = c.wf();
    let mut out: Vec<Box<AST>> = Vec::new();
    out.push(Box::new(a));
    out.push(Box::new(b));
    out.push(Box::new(c));
    proof {
        lemma_models_index(out@, 0);
        assert(models(out@, 0) =~= seq![ma, mb, mc]);
        lemma_all_wf_pointwise(out@);
    }
    out
}

/// The literal zero node.
fn zero_node() -> (r: AST)
    ensures
        r.model() == spec_zero(),
        r.wf(),
{
    AST::Number(Rat { num: 0, den: 1 })
}

/// The literal one node.
fn one_lit() -> (r: AST)
    ensures
        r.model() == spec_one(),
        r.wf(),
{
    AST::Number(Rat { num: 1, den: 1 })
}

/// Decides `spec_is_sq`.
fn is_sq(t: &AST, var: &String) -> (r: bool)
    ensures
        r == spec_is_sq(t.model(), var@),
{
    let ghost pat = AstV::Index {
        sign: Sign::Pow,
        base: Box::new(AstV::Variable(var@)),
        exponent: Box::new(AstV::Number(Rat { num: 2, den: 1 })),
    };
    match t {
        AST::Index(ix) => {
            if ix.sign != Sign::Pow {
                return false;
            }
            let base_ok = match &*ix.base {
                AST::Variable(v) => v.eq(var),
                _ => false,
            };
            let exp_ok = match &*ix.exponent {
                AST::Number(rv) => rv.num == 2 && rv.den == 1,
                _ => false,
            };
            proof {
                if base_ok && exp_ok {
                    assert(ix.base.model() == AstV::Variable(var@));
                    assert(ix.exponent.model() == AstV::Number(Rat { num: 2, den: 1 }));
                    assert(t.model() == pat);
                } else {
                    if !base_ok {
                        assert(ix.base.model() != AstV::Variable(var@));
                    } else {
                        assert(ix.exponent.model() != AstV::Number(Rat { num: 2, den: 1 }));
                    }
                    assert(t.model() != pat);
                }
            }
            base_ok && exp_ok
        },
        _ => false,
    }
}

/// Decides whether this node is the bare variable.
fn is_var(t: &AST, var: &String) -> (r: bool)
    ensures
        r == (t.model() == AstV::Variable(var@)),
{
    match t {
        AST::Variable(v) => v.eq(var),
        _ => false,
    }
}

/// Mirrors `spec_find_sq`.
fn find_sq(children: &Vec<Box<AST>>, i: usize, var: &String) -> (r: usize)
    ensures
        r as int == spec_find_sq(models(children@, 0), i as int, var@),
        r <= children@.len(),
    decreases children@.len() - i,
{
    proof {
        lemma_models_index(children@, 0);
    }
    if i >= children.len() {
        return children.len();
    }
    if is_sq(&children[i], var) {
        i
    } else {
        find_sq(children, i + 1, var)
    }
}

/// Mirrors `spec_find_var`.
fn find_var(children: &Vec<Box<AST>>, i: usize, var: &String) -> (r: usize)
    ensures
        r as int == spec_find_var(models(children@, 0), i as int, var@),
        r <= children@.len(),
    decreases children@.len() - i,
{
    proof {
        lemma_models_index(children@, 0);
    }
    if i >= children.len() {
        return children.len();
    }
    if is_var(&children[i], var) {
        i
    } else {
        find_var(children, i + 1, var)
    }
}

/// Mirrors `spec_strip`.
fn strip(sign: Sign, children: &Vec<Box<AST>>, idx: usize) -> (r: AST)
    requires
        all_wf(children@),
        idx < children@.len(),
        children@.len() >= 2,
        sign == Sign::Mul || sign == Sign::Div,
    ensures
        r.model() == spec_strip(sign, models(children@, 0), idx as int),
        r.wf(),
{
    proof {
        lemma_models_index(children@, 0);
        lemma_all_wf_pointwise(children@);
    }
    let mut rest: Vec<Box<AST>> = Vec::new();
    let mut j: usize = 0;
    while j < children.len()
        invariant
            j <= children@.len(),
            idx < children@.len(),
            all_wf(children@),
            rest@.len() == if j <= idx {
                j as int
            } else {
                j - 1
            },
            forall|k: int|
                0 <= k < rest@.len() ==> #[trigger] rest@[k].model() == (if k < idx {
                    children@[k].model()
                } else {
                    children@[k + 1].model()
                }),
            forall|k: int| 0 <= k < rest@.len() ==> #[trigger] rest@[k].wf(),
        decreases children@.len() - j,
    {
        proof {
            lemma_all_wf_pointwise(children@);
            assert(children@[j as int].wf());
        }
        if j != idx {
            rest.push(Box::new(children[j].deep_copy()));
        }
        j = j + 1;
    }
    proof {
        lemma_models_index(rest@, 0);
        lemma_models_index(children@, 0);
        assert(models(rest@, 0) =~= models(children@, 0).subrange(0, idx as int) + models(
            children@,
            0,
        ).subrange(idx as int + 1, children@.len() as int));
        lemma_all_wf_pointwise(rest@);
    }
    if rest.len() == 1 {
        let mut rest = rest;
        match rest.pop() {
            Option::Some(b) => *b,
            Option::None => AST::Number(Rat { num: 1, den: 1 }),
        }
    } else {
        AST::Term(Term { sign, term: rest })
    }
}

/// Mirrors `spec_div_remainder`.
fn div_remainder(children: &Vec<Box<AST>>) -> (r: AST)
    requires
        all_wf(children@),
        children@.len() >= 2,
    ensures
        r.model() == spec_div_remainder(models(children@, 0)),
        r.wf(),
{
    proof {
        lemma_models_index(children@, 0);
        lemma_all_wf_pointwise(children@);
    }
    let mut rest: Vec<Box<AST>> = Vec::new();
    rest.push(Box::new(one_lit()));
    let mut j: usize = 1;
    while j < children.len()
        invariant
            1 <= j <= children@.len(),
            all_wf(children@),
            rest@.len() == j as int,
            rest@[0].model() == spec_one(),
            rest@[0].wf(),
            forall|k: int|
                1 <= k < rest@.len() ==> #[trigger] rest@[k].model() == children@[k].model(),
            forall|k: int| 0 <= k < rest@.len() ==> #[trigger] rest@[k].wf(),
        decreases children@.len() - j,
    {
        proof {
            lemma_all_wf_pointwise(children@);
            assert(children@[j as int].wf());
        }
        rest.push(Box::new(children[j].deep_copy()));
        j = j + 1;
    }
    proof {
        lemma_models_index(rest@, 0);
        lemma_models_index(children@, 0);
        assert(models(rest@, 0) =~= seq![spec_one()] + models(children@, 0).drop_first());
        lemma_all_wf_pointwise(rest@);
    }
    AST::Term(Term { sign: Sign::Div, term: rest })
}

/// Mirrors `spec_classify`.
fn classify(t: &AST, var: &String) -> (r: (u8, AST))
    requires
        t.wf(),
    ensures
        ({
            let m = spec_classify(t.model(), var@);
            r.0 as int == m.0 && r.1.model() == m.1 && r.1.wf()
        }),
{
    if is_sq(t, var) {
        return (0, one_lit());
    }
    if is_var(t, var) {
        return (1, one_lit());
    }
    match t {
        AST::Term(tm) => {
            proof {
                lemma_models_index(tm.term@, 0);
                lemma_all_wf_pointwise(tm.term@);
                assert(tm.sign == Sign::Mul || tm.sign == Sign::Div);
                assert(tm.term@.len() >= 2);
                assert(tm.term@[0int].wf());
            }
            if tm.sign == Sign::Mul {
                let isq = find_sq(&tm.term, 0, var);
                if isq < tm.term.len() {
                    (0, strip(Sign::Mul, &tm.term, isq))
                } else {
                    let iv = find_var(&tm.term, 0, var);
                    if iv < tm.term.len() {
                        (1, strip(Sign::Mul, &tm.term, iv))
                    } else {
                        (2, t.deep_copy())
                    }
                }
            } else {
                if is_sq(&tm.term[0], var) {
                    (0, div_remainder(&tm.term))
                } else if is_var(&tm.term[0], var) {
                    (1, div_remainder(&tm.term))
                } else {
                    (2, t.deep_copy())
                }
            }
        },
        _ => (2, t.deep_copy()),
    }
}

/// Mirrors `spec_accum`.
fn accum(acc: AST, add: AST) -> (r: AST)
    requires
        acc.wf(),
        add.wf(),
    ensures
        r.model() == spec_accum(acc.model(), add.model()),
        r.wf(),
{
    let sentinel = match &acc {
        AST::Number(rv) => rv.num == 0 && rv.den == 1,
        _ => false,
    };
    if sentinel {
        add
    } else {
        AST::Expr(Expr { sign: Sign::Add, expr: pair_nodes(acc, add) })
    }
}

/// Mirrors `spec_negate`.
fn negate(t: AST) -> (r: Result<AST, SolveError>)
    requires
        t.wf(),
    ensures
        ({
            let m = spec_negate(t.model());
            match r {
                Ok(n) => m == Ok::<AstV, NumError>(n.model()) && n.wf(),
                Err(e) => e is Numeric && m == Err::<AstV, NumError>(e->Numeric_0),
            }
        }),
{
    match &t {
        AST::Number(rv) => match rv.checked_neg() {
            Option::None => Err(SolveError::Numeric(NumError::Overflow)),
            Option::Some(m) => Ok(AST::Number(m)),
        },
        _ => Ok(AST::Unary(Unary { sign: Sign::Sub, unary: Box::new(t) })),
    }
}

/// Mirrors `spec_scan`.
fn scan(
    children: &Vec<Box<AST>>,
    i: usize,
    neg_rest: bool,
    a: AST,
    b: AST,
    c: AST,
    var: &String,
) -> (r: Result<(AST, AST, AST), SolveError>)
    requires
        all_wf(children@),
        a.wf(),
        b.wf(),
        c.wf(),
    ensures
        ({
            let m = spec_scan(
                models(children@, 0),
                i as int,
                neg_rest,
                a.model(),
                b.model(),
                c.model(),
                var@,
            );
            match r {
                Ok(t) => m == Ok::<(AstV, AstV, AstV), SolveErrV>(
                    (t.0.model(), t.1.model(), t.2.model()),
                ) && t.0.wf() && t.1.wf() && t.2.wf(),
                Err(e) => m == Err::<(AstV, AstV, AstV), SolveErrV>(e.model()),
            }
        }),
    decreases children@.len() - i,
{
    proof {
        lemma_models_index(children@, 0);
        lemma_all_wf_pointwise(children@);
    }
    if i >= children.len() {
        return Ok((a, b, c));
    }
    proof {
        assert(children@[i as int].wf());
    }
    let (bucket, piece) = classify(&children[i], var);
    let signed = if neg_rest && i > 0 {
        match negate(piece) {
            Err(e) => {
                return Err(e);
            },
            Ok(k) => k,
        }
    } else {
        piece
    };
    if bucket == 0 {
        scan(children, i + 1, neg_rest, accum(a, signed), b, c, var)
    } else if bucket == 1 {
        scan(children, i + 1, neg_rest, a, accum(b, signed), c, var)
    } else {
        scan(children, i + 1, neg_rest, a, b, accum(c, signed), var)
    }
}

/// Mirrors `spec_from_side`.
fn from_side(m: &AST, var: &String) -> (r: Result<(AST, AST, AST), SolveError>)
    requires
        m.wf(),
    ensures
        ({
            let s = spec_from_side(m.model(), var@);
            match r {
                Ok(t) => s == Ok::<(AstV, AstV, AstV), SolveErrV>(
                    (t.0.model(), t.1.model(), t.2.model()),
                ) && t.0.wf() && t.1.wf() && t.2.wf(),
                Err(e) => s == Err::<(AstV, AstV, AstV), SolveErrV>(e.model()),
            }
        }),
{
    match m {
        AST::Expr(e) => {
            if e.sign == Sign::Add {
                scan(&e.expr, 0, false, zero_node(), zero_node(), zero_node(), var)
            } else if e.sign == Sign::Sub {
                scan(&e.expr, 0, true, zero_node(), zero_node(), zero_node(), var)
            } else {
                Err(SolveError::Shape)
            }
        },
        _ => {
            let v = one_node(m.deep_copy());
            proof {
                lemma_all_wf_pointwise(v@);
            }
            scan(&v, 0, false, zero_node(), zero_node(), zero_node(), var)
        },
    }
}

/// The `{a, b, c}` decomposition of an equation with respect to one
/// variable. The coefficient trees are subexpressions, not necessarily
/// numerals.
#[derive(Debug)]
pub struct Quadratic {
    pub a: AST,
    pub b: AST,
    pub c: AST,
    var: String,
}

impl Quadratic {
    /// The model of this decomposition.
    pub closed spec fn model(self) -> QuadV {
        QuadV { a: self.a.model(), b: self.b.model(), c: self.c.model(), var: self.var@ }
    }

    /// All three coefficient trees are well-formed.
    pub closed spec fn wf(self) -> bool {
        self.a.wf() && self.b.wf() && self.c.wf()
    }

    /// Packs a decomposition from its parts.
    pub fn new(a: AST, b: AST, c: AST, var: String) -> (q: Quadratic)
        ensures
            q.model() == (QuadV { a: a.model(), b: b.model(), c: c.model(), var: var@ }),
            q.wf() == (a.wf() && b.wf() && c.wf()),
    {
        Quadratic { a, b, c, var }
    }

    /// Extracts the coefficients of an expanded equation with respect
    /// to `var`, exactly as `spec_from` describes.
    pub fn from(ast: &AST, var: String) -> (r: Result<Quadratic, SolveError>)
        requires
            ast.wf(),
        ensures
            ({
                let m = spec_from(ast.model(), var@);
                match r {
                    Ok(q) => m == Ok::<QuadV, SolveErrV>(q.model()) && q.wf(),
                    Err(e) => m == Err::<QuadV, SolveErrV>(e.model()),
                }
            }),
        decreases ast,
    {
        match ast {
            AST::Statement(s) => Self::from(&s.statement, var),
            AST::Identity(idn) => {
                proof {
                    lemma_models_index(idn.identity@, 0);
                    lemma_all_wf_pointwise(idn.identity@);
                    assert(idn.identity@[0int].wf());
                    assert(idn.identity@[1int].wf());
                }
                let l = match from_side(&idn.identity[0], &var) {
                    Err(e) => {
                        return Err(e);
                    },
                    Ok(t) => t,
                };
                let r = match from_side(&idn.identity[1], &var) {
                    Err(e) => {
                        return Err(e);
                    },
                    Ok(t) => t,
                };
                Ok(
                    Quadratic {
                        a: AST::Expr(Expr { sign: Sign::Sub, expr: pair_nodes(l.0, r.0) }),
                        b: AST::Expr(Expr { sign: Sign::Sub, expr: pair_nodes(l.1, r.1) }),
                        c: AST::Expr(Expr { sign: Sign::Sub, expr: pair_nodes(l.2, r.2) }),
                        var,
                    },
                )
            },
            AST::Expr(_) => {
                let t = match from_side(ast, &var) {
                    Err(e) => {
                        return Err(e);
                    },
                    Ok(t) => t,
                };
                Ok(Quadratic { a: t.0, b: t.1, c: t.2, var })
            },
            _ => Err(SolveError::Shape),
        }
    }

    /// Subtracts the right side's coefficients from the left side's.
    pub fn one_side(q1: Quadratic, q2: Quadratic, var: String) -> (r: Quadratic)
        requires
            q1.wf(),
            q2.wf(),
        ensures
            r.model() == spec_one_side(
                (q1.model().a, q1.model().b, q1.model().c),
                (q2.model().a, q2.model().b, q2.model().c),
                var@,
            ),
            r.wf(),
    {
        Quadratic {
            a: AST::Expr(Expr { sign: Sign::Sub, expr: pair_nodes(q1.a, q2.a) }),
            b: AST::Expr(Expr { sign: Sign::Sub, expr: pair_nodes(q1.b, q2.b) }),
            c: AST::Expr(Expr { sign: Sign::Sub, expr: pair_nodes(q1.c, q2.c) }),
            var,
        }
    }

    /// Solves the equation into `var = <solution>`, cascading through
    /// the quadratic, linear, degenerate and cross-variable branches,
    /// with the variable-switch depth capped at two.
    pub fn solve(&self) -> (r: Result<AST, SolveError>)
        requires
            self.wf(),
        ensures
            ({
                let m = spec_solve(self.model(), spec_solve_fuel());
                match r {
                    Ok(t) => m == Ok::<AstV, SolveErrV>(t.model()) && t.wf(),
                    Err(e) => m == Err::<AstV, SolveErrV>(e.model()),
                }
            }),
    {
        solve_fueled(self, 2)
    }
}

/// Builds the quadratic-formula tree for a decomposition.
fn build_formula(q: &Quadratic) -> (r: AST)
    requires
        q.wf(),
    ensures
        r.model() == spec_formula(q.model()),
        r.wf(),
{
    let two = AST::Number(Rat { num: 2, den: 1 });
    let four = AST::Number(Rat { num: 4, den: 1 });
    let cb = q.b.deep_copy();
    proof {
        assert(cb.wf());
        assert(cb.model() == q.model().b);
        assert(two.wf());
    }
    let ix = Index { sign: Sign::Pow, base: Box::new(cb), exponent: Box::new(two) };
    proof {
        assert((*ix.base).wf());
        assert((*ix.exponent).wf());
        assert(ix.sign == Sign::Pow);
    }
    let sq_b = AST::Index(ix);
    proof {
        assert((*sq_b->Index_0.base).model() == q.model().b);
        assert((*sq_b->Index_0.exponent).model() == AstV::Number(Rat { num: 2, den: 1 }));
        assert(sq_b.wf());
        assert(sq_b.model() == AstV::Index {
            sign: Sign::Pow,
            base: Box::new(q.model().b),
            exponent: Box::new(AstV::Number(Rat { num: 2, den: 1 })),
        });
    }
    let four_ac = AST::Term(
        Term { sign: Sign::Mul, term: triple_nodes(four, q.a.deep_copy(), q.c.deep_copy()) },
    );
    proof {
        assert(four_ac.wf());
        assert(four_ac.model() == AstV::Term {
            sign: Sign::Mul,
            children: seq![AstV::Number(Rat { num: 4, den: 1 }), q.model().a, q.model().c],
        });
    }
    let disc = AST::Expr(Expr { sign: Sign::Sub, expr: pair_nodes(sq_b, four_ac) });
    proof {
        assert(disc.wf());
    }
    let root = AST::Call(Call { name: "sqrt".to_owned(), call: one_node(disc) });
    proof {
        assert(root.wf());
    }
    let minus_b = AST::Unary(Unary { sign: Sign::Sub, unary: Box::new(q.b.deep_copy()) });
    let numerator = AST::Expr(Expr { sign: Sign::AddSub, expr: pair_nodes(minus_b, root) });
    proof {
        assert(numerator.wf());
    }
    let denominator = AST::Term(
        Term {
            sign: Sign::Mul,
            term: pair_nodes(AST::Number(Rat { num: 2, den: 1 }), q.a.deep_copy()),
        },
    );
    let quotient = AST::Term(Term { sign: Sign::Div, term: pair_nodes(numerator, denominator) });
    proof {
        assert(quotient.wf());
    }
    let out = AST::Identity(
        Identity { identity: pair_nodes(AST::Variable(q.var.clone()), quotient) },
    );
    proof {
        assert(out.wf());
        assert(out.model() == spec_formula(q.model()));
    }
    out
}

/// The solver cascade with an explicit depth budget.
#[verifier::rlimit(100)]
fn solve_fueled(q: &Quadratic, fuel: u64) -> (r: Result<AST, SolveError>)
    requires
        q.wf(),
    ensures
        ({
            let m = spec_solve(q.model(), fuel as nat);
            match r {
                Ok(t) => m == Ok::<AstV, SolveErrV>(t.model()) && t.wf(),
                Err(e) => m == Err::<AstV, SolveErrV>(e.model()),
            }
        }),
    decreases fuel,
{
    if fuel == 0 {
        return Err(SolveError::Depth);
    }
    let vs = match eval(&q.a, Rat { num: 0, den: 1 }) {
        Err(e) => {
            return Err(SolveError::Eval(e));
        },
        Ok(vs) => vs,
    };
    if vs.len() == 0 {
        return Err(SolveError::Shape);
    }
    if !vs[0].is_zero() {
        return Ok(build_formula(q));
    }
    let ws = match eval(&q.b, Rat { num: 0, den: 1 }) {
        Err(e) => {
            return Err(SolveError::Eval(e));
        },
        Ok(ws) => ws,
    };
    if ws.len() == 0 {
        return Err(SolveError::Shape);
    }
    if !ws[0].is_zero() {
        let quotient = AST::Term(
            Term {
                sign: Sign::Div,
                term: pair_nodes(
                    AST::Unary(Unary { sign: Sign::Sub, unary: Box::new(q.c.deep_copy()) }),
                    q.b.deep_copy(),
                ),
            },
        );
        return Ok(
            AST::Identity(
                Identity {
                    identity: pair_nodes(AST::Variable(q.var.clone()), quotient),
                },
            ),
        );
    }
    let ec = match expand(&q.c) {
        Err(e) => {
            return Err(SolveError::Numeric(e));
        },
        Ok(ec) => ec,
    };
    let is_num = match &ec {
        AST::Number(_) => true,
        _ => false,
    };
    if is_num {
        return Ok(
            AST::Identity(
                Identity {
                    identity: pair_nodes(AST::Variable(q.var.clone()), q.c.deep_copy()),
                },
            ),
        );
    }
    let other: String = if crate::eval::name_is(&q.var, "y") {
        "x".to_owned()
    } else {
        "y".to_owned()
    };
    let q2 = match Quadratic::from(&q.c, other) {
        Err(e) => {
            return Err(e);
        },
        Ok(q2) => q2,
    };
    let inner = match solve_fueled(&q2, fuel - 1) {
        Err(e) => {
            return Err(e);
        },
        Ok(t) => t,
    };
    Ok(
        AST::Identity(
            Identity { identity: pair_nodes(AST::Variable(q.var.clone()), inner) },
        ),
    )
}


/// With a literal, nonzero leading coefficient the cascade takes the
/// quadratic branch: the solution is exactly the formula tree
/// `var = (-b +- sqrt(b^2 - 4*a*c)) / (2*a)`.
pub proof fn lemma_solve_quadratic_branch(q: QuadV, ra: Rat, fuel: nat)
    requires
        q.a == AstV::Number(ra),
        !ra.spec_is_zero(),
        fuel >= 1,
    ensures
        spec_solve(q, fuel) == Ok::<AstV, SolveErrV>(spec_formula(q)),
{
    assert(spec_eval(q.a, spec_rat0()) == Ok::<Seq<Rat>, EvalErrorV>(seq![ra]));
    assert(seq![ra][0] == ra);
    assert(seq![ra].len() == 1);
}

/// With a leading coefficient that is literally zero and a literal,
/// nonzero linear coefficient, the cascade takes the linear branch:
/// the solution is exactly `var = (-c) / b`.
pub proof fn lemma_solve_linear_branch(q: QuadV, ra: Rat, rb: Rat, fuel: nat)
    requires
        q.a == AstV::Number(ra),
        ra.spec_is_zero(),
        q.b == AstV::Number(rb),
        !rb.spec_is_zero(),
        fuel >= 1,
    ensures
        spec_solve(q, fuel) == Ok::<AstV, SolveErrV>(spec_linear(q)),
{
    assert(spec_eval(q.a, spec_rat0()) == Ok::<Seq<Rat>, EvalErrorV>(seq![ra]));
    assert(seq![ra][0] == ra);
    assert(spec_eval(q.b, spec_rat0()) == Ok::<Seq<Rat>, EvalErrorV>(seq![rb]));
    assert(seq![rb][0] == rb);
}


} // verus!

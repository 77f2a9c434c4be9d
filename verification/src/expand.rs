//! Structural normalizer.
//!
//! `expand` flattens same-operator nesting, folds literal subtrees and
//! constant-folds calls on literal arguments, and is idempotent.
//!
//! - A unary `+` is erased; a unary `-` on a literal negates it; any
//!   other unary survives with an expanded operand.
//! - An additive chain folds its literal children exactly: under `+`
//!   into one leading sum, under `-` into the arithmetically correct
//!   places (a literal head absorbs the subtracted literals; otherwise
//!   the subtracted literals fold into one trailing value). A `+-`
//!   chain folds nothing. Same-sign nesting flattens only under `+`.
//! - A multiplicative chain folds literals only under `*`, into one
//!   trailing product; nesting flattens only under `*`.
//! - A power or a supported call folds to a literal only when the exact
//!   rational result exists; otherwise the node survives with expanded
//!   operands. Folding that would leave `i64` reports `Overflow`.

use crate::ast::{
    all_wf, lemma_all_wf_pointwise, lemma_models_index, models, AstV, Expr, Identity, Sign, Term,
    Unary, AST,
};
use crate::eval::{spec_apply_call, spec_known_call};
use crate::rat::{NumError, Rat};
use vstd::prelude::*;

verus! {

/// Zero, the additive unit of folding.
pub open spec fn spec_rat_zero() -> Rat {
    Rat { num: 0, den: 1 }
}

/// Collapse an additive chain: empty becomes `0`, a singleton becomes
/// the bare child.
pub open spec fn spec_collapse(sign: Sign, out: Seq<AstV>) -> AstV {
    if out.len() == 0 {
        AstV::Number(spec_rat_zero())
    } else if out.len() == 1 {
        out[0]
    } else {
        AstV::Expr { sign, children: out }
    }
}

/// Walk the children of a nested additive chain spliced into an `+`
/// parent: literals fold into the running sum, the rest is kept.
pub open spec fn spec_splice_add(g: Seq<AstV>, j: int, sum: Rat) -> Result<
    (Seq<AstV>, Rat),
    NumError,
>
    decreases g, g.len() - j,
{
    if j < 0 || j >= g.len() {
        Ok((Seq::empty(), sum))
    } else {
        match g[j] {
            AstV::Number(r) => match sum.spec_add(r) {
                Option::None => Err(NumError::Overflow),
                Option::Some(s2) => spec_splice_add(g, j + 1, s2),
            },
            _ => match spec_splice_add(g, j + 1, sum) {
                Err(e) => Err(e),
                Ok((rest, s2)) => Ok((seq![g[j]] + rest, s2)),
            },
        }
    }
}

/// Walk the expanded children of a `+` chain: literals fold into the
/// running sum, a nested `+` chain is spliced in, the rest is kept.
pub open spec fn spec_flat_add(kids: Seq<AstV>, i: int, sum: Rat) -> Result<
    (Seq<AstV>, Rat),
    NumError,
>
    decreases kids, kids.len() - i,
{
    if i < 0 || i >= kids.len() {
        Ok((Seq::empty(), sum))
    } else {
        match kids[i] {
            AstV::Number(r) => match sum.spec_add(r) {
                Option::None => Err(NumError::Overflow),
                Option::Some(s2) => spec_flat_add(kids, i + 1, s2),
            },
            AstV::Expr { sign: Sign::Add, children: g } => match spec_splice_add(g, 0, sum) {
                Err(e) => Err(e),
                Ok((inner, s2)) => match spec_flat_add(kids, i + 1, s2) {
                    Err(e) => Err(e),
                    Ok((rest, s3)) => Ok((inner + rest, s3)),
                },
            },
            _ => match spec_flat_add(kids, i + 1, sum) {
                Err(e) => Err(e),
                Ok((rest, s2)) => Ok((seq![kids[i]] + rest, s2)),
            },
        }
    }
}

/// Walk the expanded children of a `-` chain after the head: literals
/// fold into the subtracted total, the rest is kept in order.
pub open spec fn spec_sub_split(kids: Seq<AstV>, i: int, total: Rat) -> Result<
    (Seq<AstV>, Rat),
    NumError,
>
    decreases kids, kids.len() - i,
{
    if i < 0 || i >= kids.len() {
        Ok((Seq::empty(), total))
    } else {
        match kids[i] {
            AstV::Number(r) => match total.spec_add(r) {
                Option::None => Err(NumError::Overflow),
                Option::Some(t2) => spec_sub_split(kids, i + 1, t2),
            },
            _ => match spec_sub_split(kids, i + 1, total) {
                Err(e) => Err(e),
                Ok((rest, t2)) => Ok((seq![kids[i]] + rest, t2)),
            },
        }
    }
}

/// Walk the children of a nested `*` chain spliced into a `*` parent.
pub open spec fn spec_splice_mul(g: Seq<AstV>, j: int, prod: Rat) -> Result<
    (Seq<AstV>, Rat),
    NumError,
>
    decreases g, g.len() - j,
{
    if j < 0 || j >= g.len() {
        Ok((Seq::empty(), prod))
    } else {
        match g[j] {
            AstV::Number(r) => match prod.spec_mul(r) {
                Option::None => Err(NumError::Overflow),
                Option::Some(p2) => spec_splice_mul(g, j + 1, p2),
            },
            _ => match spec_splice_mul(g, j + 1, prod) {
                Err(e) => Err(e),
                Ok((rest, p2)) => Ok((seq![g[j]] + rest, p2)),
            },
        }
    }
}

/// Walk the expanded children of a `*` chain: literals fold into the
/// running product, a nested `*` chain is spliced in, the rest is kept.
pub open spec fn spec_flat_mul(kids: Seq<AstV>, i: int, prod: Rat) -> Result<
    (Seq<AstV>, Rat),
    NumError,
>
    decreases kids, kids.len() - i,
{
    if i < 0 || i >= kids.len() {
        Ok((Seq::empty(), prod))
    } else {
        match kids[i] {
            AstV::Number(r) => match prod.spec_mul(r) {
                Option::None => Err(NumError::Overflow),
                Option::Some(p2) => spec_flat_mul(kids, i + 1, p2),
            },
            AstV::Term { sign: Sign::Mul, children: g } => match spec_splice_mul(g, 0, prod) {
                Err(e) => Err(e),
                Ok((inner, p2)) => match spec_flat_mul(kids, i + 1, p2) {
                    Err(e) => Err(e),
                    Ok((rest, p3)) => Ok((inner + rest, p3)),
                },
            },
            _ => match spec_flat_mul(kids, i + 1, prod) {
                Err(e) => Err(e),
                Ok((rest, p2)) => Ok((seq![kids[i]] + rest, p2)),
            },
        }
    }
}

/// The normalizer, as a mathematical function of the tree model.
pub open spec fn spec_expand(a: AstV) -> Result<AstV, NumError>
    decreases a, 1int,
{
    match a {
        AstV::Number(r) => Ok(AstV::Number(r)),
        AstV::Variable(v) => Ok(AstV::Variable(v)),
        AstV::Unary { sign, operand } => match spec_expand(*operand) {
            Err(e) => Err(e),
            Ok(n) => match sign {
                Sign::Add => Ok(n),
                Sign::Sub => match n {
                    AstV::Number(r) => match r.spec_neg() {
                        Option::None => Err(NumError::Overflow),
                        Option::Some(m) => Ok(AstV::Number(m)),
                    },
                    _ => Ok(AstV::Unary { sign: Sign::Sub, operand: Box::new(n) }),
                },
                _ => Ok(AstV::Unary { sign, operand: Box::new(n) }),
            },
        },
        AstV::Expr { sign, children } => match spec_expand_children(children, 0) {
            Err(e) => Err(e),
            Ok(kids) => if sign == Sign::Add {
                match spec_flat_add(kids, 0, spec_rat_zero()) {
                    Err(e) => Err(e),
                    Ok((nonlits, sum)) => if sum.spec_is_zero() {
                        Ok(spec_collapse(Sign::Add, nonlits))
                    } else {
                        Ok(spec_collapse(Sign::Add, seq![AstV::Number(sum)] + nonlits))
                    },
                }
            } else if sign == Sign::Sub {
                if kids.len() == 0 {
                    Ok(AstV::Number(spec_rat_zero()))
                } else {
                    match spec_sub_split(kids, 1, spec_rat_zero()) {
                        Err(e) => Err(e),
                        Ok((nonlits, total)) => match kids[0] {
                            AstV::Number(r0) => match r0.spec_sub(total) {
                                Option::None => Err(NumError::Overflow),
                                Option::Some(folded) => if nonlits.len() == 0 {
                                    Ok(AstV::Number(folded))
                                } else {
                                    Ok(
                                        AstV::Expr {
                                            sign: Sign::Sub,
                                            children: seq![AstV::Number(folded)] + nonlits,
                                        },
                                    )
                                },
                            },
                            _ => {
                                let tail: Seq<AstV> = if total.spec_is_zero() {
                                    Seq::empty()
                                } else {
                                    seq![AstV::Number(total)]
                                };
                                let out = seq![kids[0]] + nonlits + tail;
                                if out.len() == 1 {
                                    Ok(kids[0])
                                } else {
                                    Ok(AstV::Expr { sign: Sign::Sub, children: out })
                                }
                            },
                        },
                    }
                }
            } else {
                Ok(spec_collapse(sign, kids))
            },
        },
        AstV::Term { sign, children } => match spec_expand_children(children, 0) {
            Err(e) => Err(e),
            Ok(kids) => if sign == Sign::Mul {
                match spec_flat_mul(kids, 0, crate::rat::spec_rat_one()) {
                    Err(e) => Err(e),
                    Ok((nonlits, prod)) => if nonlits.len() == 0 {
                        Ok(AstV::Number(prod))
                    } else {
                        let out = nonlits + (if prod.spec_is_one() {
                            Seq::<AstV>::empty()
                        } else {
                            seq![AstV::Number(prod)]
                        });
                        if out.len() == 1 {
                            Ok(out[0])
                        } else {
                            Ok(AstV::Term { sign: Sign::Mul, children: out })
                        }
                    },
                }
            } else {
                if kids.len() == 0 {
                    Ok(AstV::Number(crate::rat::spec_rat_one()))
                } else if kids.len() == 1 {
                    Ok(kids[0])
                } else {
                    Ok(AstV::Term { sign, children: kids })
                }
            },
        },
        AstV::Index { sign, base, exponent } => match spec_expand(*base) {
            Err(e) => Err(e),
            Ok(b) => match spec_expand(*exponent) {
                Err(e) => Err(e),
                Ok(ex) => match (b, ex) {
                    (AstV::Number(rb), AstV::Number(re)) => match rb.spec_pow(re) {
                        Ok(v) => Ok(AstV::Number(v)),
                        Err(_) => Ok(
                            AstV::Index {
                                sign,
                                base: Box::new(AstV::Number(rb)),
                                exponent: Box::new(AstV::Number(re)),
                            },
                        ),
                    },
                    (b2, e2) => Ok(AstV::Index { sign, base: Box::new(b2), exponent: Box::new(e2) }),
                },
            },
        },
        AstV::Call { name, args } => if args.len() == 0 {
            Ok(AstV::Call { name, args })
        } else {
            match spec_expand(args[0]) {
                Err(e) => Err(e),
                Ok(a0) => match a0 {
                    AstV::Number(r) => if spec_known_call(name) {
                        match spec_apply_call(name, r) {
                            Ok(v) => Ok(AstV::Number(v)),
                            Err(_) => Ok(AstV::Call { name, args: seq![AstV::Number(r)] }),
                        }
                    } else {
                        Ok(AstV::Call { name, args: seq![AstV::Number(r)] })
                    },
                    _ => Ok(AstV::Call { name, args: seq![a0] }),
                },
            }
        },
        AstV::Identity(members) => match spec_expand_children(members, 0) {
            Err(e) => Err(e),
            Ok(ms) => Ok(AstV::Identity(ms)),
        },
        AstV::Statement { body, command } => spec_expand(*body),
    }
}

/// Expands every child from index `i` on.
pub open spec fn spec_expand_children(children: Seq<AstV>, i: int) -> Result<Seq<AstV>, NumError>
    decreases children, children.len() - i,
{
    if i < 0 || i >= children.len() {
        Ok(Seq::empty())
    } else {
        match spec_expand(children[i]) {
            Err(e) => Err(e),
            Ok(c) => match spec_expand_children(children, i + 1) {
                Err(e) => Err(e),
                Ok(rest) => Ok(seq![c] + rest),
            },
        }
    }
}

/// A one-element child vector.
fn one_child(a: AST) -> (out: Vec<Box<AST>>)
    ensures
        models(out@, 0) == seq![a.model()],
        out@.len() == 1,
        a.wf() ==> all_wf(out@),
    decreases a,
{
    let ghost m = a.model();
    let ghost w = a.wf();
    let mut out: Vec<Box<AST>> = Vec::new();
    out.push(Box::new(a));
    proof {
        lemma_models_index(out@, 0);
        assert(models(out@, 0) =~= seq![m]);
        lemma_all_wf_pointwise(out@);
    }
    out
}

/// Prepends a head to a child vector.
fn cons_child(head: AST, rest: Vec<Box<AST>>) -> (out: Vec<Box<AST>>)
    ensures
        models(out@, 0) == seq![head.model()] + models(rest@, 0),
        out@.len() == rest@.len() + 1,
        head.wf() && all_wf(rest@) ==> all_wf(out@),
    decreases head,
{
    let ghost hm = head.model();
    let ghost hw = head.wf();
    let ghost restv = rest@;
    let mut out: Vec<Box<AST>> = Vec::new();
    out.push(Box::new(head));
    let mut rest = rest;
    out.append(&mut rest);
    proof {
        lemma_models_index(out@, 0);
        lemma_models_index(restv, 0);
        assert(models(out@, 0) =~= seq![hm] + models(restv, 0));
        if hw && all_wf(restv) {
            lemma_all_wf_pointwise(out@);
            lemma_all_wf_pointwise(restv);
        }
    }
    out
}

/// Collapses an additive chain: empty to `0`, a singleton to the child.
fn collapse(sign: Sign, out: Vec<Box<AST>>) -> (r: AST)
    requires
        sign == Sign::Add || sign == Sign::Sub || sign == Sign::AddSub,
        all_wf(out@),
    ensures
        r.model() == spec_collapse(sign, models(out@, 0)),
        r.wf(),
{
    proof {
        lemma_models_index(out@, 0);
        lemma_all_wf_pointwise(out@);
    }
    let mut out = out;
    if out.len() == 0 {
        AST::Number(Rat { num: 0, den: 1 })
    } else if out.len() == 1 {
        match out.pop() {
            Option::Some(b) => *b,
            Option::None => AST::Number(Rat { num: 0, den: 1 }),
        }
    } else {
        AST::Expr(Expr { sign, expr: out })
    }
}

fn splice_add(g: &Vec<Box<AST>>, j: usize, sum: Rat) -> (r: Result<(Vec<Box<AST>>, Rat), NumError>)
    requires
        all_wf(g@),
        sum.wf(),
    ensures
        ({
            let m = spec_splice_add(models(g@, 0), j as int, sum);
            match r {
                Ok((out, s)) => m == Ok::<_, NumError>((models(out@, 0), s)) && all_wf(out@)
                    && s.wf(),
                Err(e) => m == Err::<(Seq<AstV>, Rat), _>(e),
            }
        }),
    decreases g@.len() - j,
{
    proof {
        lemma_models_index(g@, 0);
        lemma_all_wf_pointwise(g@);
    }
    if j >= g.len() {
        return Ok((Vec::new(), sum));
    }
    let child: &AST = &g[j];
    proof {
        assert(g@[j as int].wf());
    }
    match child {
        AST::Number(rv) => {
            let s2 = match sum.checked_add(*rv) {
                Option::None => {
                    return Err(NumError::Overflow);
                },
                Option::Some(s2) => s2,
            };
            splice_add(g, j + 1, s2)
        },
        _ => {
            let (rest, s2) = match splice_add(g, j + 1, sum) {
                Err(e) => {
                    return Err(e);
                },
                Ok(p) => p,
            };
            Ok((cons_child(child.deep_copy(), rest), s2))
        },
    }
}

fn flat_add(kids: &Vec<Box<AST>>, i: usize, sum: Rat) -> (r: Result<
    (Vec<Box<AST>>, Rat),
    NumError,
>)
    requires
        all_wf(kids@),
        sum.wf(),
    ensures
        ({
            let m = spec_flat_add(models(kids@, 0), i as int, sum);
            match r {
                Ok((out, s)) => m == Ok::<_, NumError>((models(out@, 0), s)) && all_wf(out@)
                    && s.wf(),
                Err(e) => m == Err::<(Seq<AstV>, Rat), _>(e),
            }
        }),
    decreases kids@.len() - i,
{
    proof {
        lemma_models_index(kids@, 0);
        lemma_all_wf_pointwise(kids@);
    }
    if i >= kids.len() {
        return Ok((Vec::new(), sum));
    }
    let child: &AST = &kids[i];
    proof {
        assert(kids@[i as int].wf());
    }
    match child {
        AST::Number(rv) => {
            let s2 = match sum.checked_add(*rv) {
                Option::None => {
                    return Err(NumError::Overflow);
                },
                Option::Some(s2) => s2,
            };
            flat_add(kids, i + 1, s2)
        },
        AST::Expr(e2) => {
            if e2.sign == Sign::Add {
                let (inner, s2) = match splice_add(&e2.expr, 0, sum) {
                    Err(e) => {
                        return Err(e);
                    },
                    Ok(p) => p,
                };
                let (rest, s3) = match flat_add(kids, i + 1, s2) {
                    Err(e) => {
                        return Err(e);
                    },
                    Ok(p) => p,
                };
                proof {
                    lemma_models_index(inner@, 0);
                    lemma_models_index(rest@, 0);
                    lemma_all_wf_pointwise(inner@);
                    lemma_all_wf_pointwise(rest@);
                }
                let ghost innerv = inner@;
                let ghost restv = rest@;
                let mut out = inner;
                let mut rest = rest;
                out.append(&mut rest);
                proof {
                    lemma_models_index(out@, 0);
                    assert(models(out@, 0) =~= models(innerv, 0) + models(restv, 0));
                    lemma_all_wf_pointwise(out@);
                }
                Ok((out, s3))
            } else {
                let (rest, s2) = match flat_add(kids, i + 1, sum) {
                    Err(e) => {
                        return Err(e);
                    },
                    Ok(p) => p,
                };
                Ok((cons_child(child.deep_copy(), rest), s2))
            }
        },
        _ => {
            let (rest, s2) = match flat_add(kids, i + 1, sum) {
                Err(e) => {
                    return Err(e);
                },
                Ok(p) => p,
            };
            Ok((cons_child(child.deep_copy(), rest), s2))
        },
    }
}

fn sub_split(kids: &Vec<Box<AST>>, i: usize, total: Rat) -> (r: Result<
    (Vec<Box<AST>>, Rat),
    NumError,
>)
    requires
        all_wf(kids@),
        total.wf(),
    ensures
        ({
            let m = spec_sub_split(models(kids@, 0), i as int, total);
            match r {
                Ok((out, t)) => m == Ok::<_, NumError>((models(out@, 0), t)) && all_wf(out@)
                    && t.wf(),
                Err(e) => m == Err::<(Seq<AstV>, Rat), _>(e),
            }
        }),
    decreases kids@.len() - i,
{
    proof {
        lemma_models_index(kids@, 0);
        lemma_all_wf_pointwise(kids@);
    }
    if i >= kids.len() {
        return Ok((Vec::new(), total));
    }
    let child: &AST = &kids[i];
    proof {
        assert(kids@[i as int].wf());
    }
    match child {
        AST::Number(rv) => {
            let t2 = match total.checked_add(*rv) {
                Option::None => {
                    return Err(NumError::Overflow);
                },
                Option::Some(t2) => t2,
            };
            sub_split(kids, i + 1, t2)
        },
        _ => {
            let (rest, t2) = match sub_split(kids, i + 1, total) {
                Err(e) => {
                    return Err(e);
                },
                Ok(p) => p,
            };
            Ok((cons_child(child.deep_copy(), rest), t2))
        },
    }
}

fn splice_mul(g: &Vec<Box<AST>>, j: usize, prod: Rat) -> (r: Result<
    (Vec<Box<AST>>, Rat),
    NumError,
>)
    requires
        all_wf(g@),
        prod.wf(),
    ensures
        ({
            let m = spec_splice_mul(models(g@, 0), j as int, prod);
            match r {
                Ok((out, p)) => m == Ok::<_, NumError>((models(out@, 0), p)) && all_wf(out@)
                    && p.wf(),
                Err(e) => m == Err::<(Seq<AstV>, Rat), _>(e),
            }
        }),
    decreases g@.len() - j,
{
    proof {
        lemma_models_index(g@, 0);
        lemma_all_wf_pointwise(g@);
    }
    if j >= g.len() {
        return Ok((Vec::new(), prod));
    }
    let child: &AST = &g[j];
    proof {
        assert(g@[j as int].wf());
    }
    match child {
        AST::Number(rv) => {
            let p2 = match prod.checked_mul(*rv) {
                Option::None => {
                    return Err(NumError::Overflow);
                },
                Option::Some(p2) => p2,
            };
            splice_mul(g, j + 1, p2)
        },
        _ => {
            let (rest, p2) = match splice_mul(g, j + 1, prod) {
                Err(e) => {
                    return Err(e);
                },
                Ok(p) => p,
            };
            Ok((cons_child(child.deep_copy(), rest), p2))
        },
    }
}

fn flat_mul(kids: &Vec<Box<AST>>, i: usize, prod: Rat) -> (r: Result<
    (Vec<Box<AST>>, Rat),
    NumError,
>)
    requires
        all_wf(kids@),
        prod.wf(),
    ensures
        ({
            let m = spec_flat_mul(models(kids@, 0), i as int, prod);
            match r {
                Ok((out, p)) => m == Ok::<_, NumError>((models(out@, 0), p)) && all_wf(out@)
                    && p.wf(),
                Err(e) => m == Err::<(Seq<AstV>, Rat), _>(e),
            }
        }),
    decreases kids@.len() - i,
{
    proof {
        lemma_models_index(kids@, 0);
        lemma_all_wf_pointwise(kids@);
    }
    if i >= kids.len() {
        return Ok((Vec::new(), prod));
    }
    let child: &AST = &kids[i];
    proof {
        assert(kids@[i as int].wf());
    }
    match child {
        AST::Number(rv) => {
            let p2 = match prod.checked_mul(*rv) {
                Option::None => {
                    return Err(NumError::Overflow);
                },
                Option::Some(p2) => p2,
            };
            flat_mul(kids, i + 1, p2)
        },
        AST::Term(t2) => {
            if t2.sign == Sign::Mul {
                let (inner, p2) = match splice_mul(&t2.term, 0, prod) {
                    Err(e) => {
                        return Err(e);
                    },
                    Ok(p) => p,
                };
                let (rest, p3) = match flat_mul(kids, i + 1, p2) {
                    Err(e) => {
                        return Err(e);
                    },
                    Ok(p) => p,
                };
                proof {
                    lemma_models_index(inner@, 0);
                    lemma_models_index(rest@, 0);
                    lemma_all_wf_pointwise(inner@);
                    lemma_all_wf_pointwise(rest@);
                }
                let ghost innerv = inner@;
                let ghost restv = rest@;
                let mut out = inner;
                let mut rest = rest;
                out.append(&mut rest);
                proof {
                    lemma_models_index(out@, 0);
                    assert(models(out@, 0) =~= models(innerv, 0) + models(restv, 0));
                    lemma_all_wf_pointwise(out@);
                }
                Ok((out, p3))
            } else {
                let (rest, p2) = match flat_mul(kids, i + 1, prod) {
                    Err(e) => {
                        return Err(e);
                    },
                    Ok(p) => p,
                };
                Ok((cons_child(child.deep_copy(), rest), p2))
            }
        },
        _ => {
            let (rest, p2) = match flat_mul(kids, i + 1, prod) {
                Err(e) => {
                    return Err(e);
                },
                Ok(p) => p,
            };
            Ok((cons_child(child.deep_copy(), rest), p2))
        },
    }
}

/// The normalizer: flattens, folds exactly, and never panics.
pub fn expand(ast: &AST) -> (r: Result<AST, NumError>)
    requires
        ast.wf(),
    ensures
        ({
            let m = spec_expand(ast.model());
            match r {
                Ok(out) => m == Ok::<AstV, NumError>(out.model()) && out.wf(),
                Err(e) => m == Err::<AstV, NumError>(e),
            }
        }),
    decreases ast, 1int,
{
    match ast {
        AST::Number(rv) => Ok(AST::Number(*rv)),
        AST::Variable(v) => Ok(AST::Variable(v.clone())),
        AST::Unary(u) => {
            let n = match expand(&u.unary) {
                Err(e) => {
                    return Err(e);
                },
                Ok(n) => n,
            };
            match u.sign {
                Sign::Add => Ok(n),
                Sign::Sub => {
                    let fold: Option<Rat> = match &n {
                        AST::Number(rv) => rv.checked_neg(),
                        _ => Option::None,
                    };
                    match (fold, &n) {
                        (Option::Some(m2), _) => Ok(AST::Number(m2)),
                        (Option::None, AST::Number(_)) => Err(NumError::Overflow),
                        _ => Ok(AST::Unary(Unary { sign: Sign::Sub, unary: Box::new(n) })),
                    }
                },
                _ => Ok(AST::Unary(Unary { sign: u.sign, unary: Box::new(n) })),
            }
        },
        AST::Expr(e) => {
            proof {
                lemma_models_index(e.expr@, 0);
            }
            let kids = match expand_children(&e.expr, 0) {
                Err(er) => {
                    return Err(er);
                },
                Ok(k) => k,
            };
            proof {
                lemma_models_index(kids@, 0);
                lemma_all_wf_pointwise(kids@);
            }
            if e.sign == Sign::Add {
                let (nonlits, sum) = match flat_add(&kids, 0, Rat { num: 0, den: 1 }) {
                    Err(er) => {
                        return Err(er);
                    },
                    Ok(p) => p,
                };
                if sum.is_zero() {
                    Ok(collapse(Sign::Add, nonlits))
                } else {
                    Ok(collapse(Sign::Add, cons_child(AST::Number(sum), nonlits)))
                }
            } else if e.sign == Sign::Sub {
                let (nonlits, total) = match sub_split(&kids, 1, Rat { num: 0, den: 1 }) {
                    Err(er) => {
                        return Err(er);
                    },
                    Ok(p) => p,
                };
                let first: &AST = &kids[0];
                proof {
                    assert(kids@[0int].wf());
                }
                match first {
                    AST::Number(r0) => {
                        let folded = match r0.checked_sub(total) {
                            Option::None => {
                                return Err(NumError::Overflow);
                            },
                            Option::Some(f) => f,
                        };
                        if nonlits.len() == 0 {
                            Ok(AST::Number(folded))
                        } else {
                            proof {
                                lemma_models_index(nonlits@, 0);
                            }
                            Ok(
                                AST::Expr(
                                    Expr {
                                        sign: Sign::Sub,
                                        expr: cons_child(AST::Number(folded), nonlits),
                                    },
                                ),
                            )
                        }
                    },
                    _ => {
                        let mut out = cons_child(first.deep_copy(), nonlits);
                        if !total.is_zero() {
                            proof {
                                lemma_models_index(out@, 0);
                                lemma_all_wf_pointwise(out@);
                            }
                            let ghost oldv = out@;
                            out.push(Box::new(AST::Number(total)));
                            proof {
                                lemma_models_index(out@, 0);
                                assert(models(out@, 0) =~= models(oldv, 0) + seq![
                                    AstV::Number(total),
                                ]);
                                lemma_all_wf_pointwise(out@);
                            }
                        }
                        proof {
                            lemma_models_index(out@, 0);
                            lemma_all_wf_pointwise(out@);
                        }
                        if out.len() == 1 {
                            Ok(first.deep_copy())
                        } else {
                            Ok(AST::Expr(Expr { sign: Sign::Sub, expr: out }))
                        }
                    },
                }
            } else {
                Ok(collapse(e.sign, kids))
            }
        },
        AST::Term(t) => {
            proof {
                lemma_models_index(t.term@, 0);
            }
            let kids = match expand_children(&t.term, 0) {
                Err(er) => {
                    return Err(er);
                },
                Ok(k) => k,
            };
            proof {
                lemma_models_index(kids@, 0);
                lemma_all_wf_pointwise(kids@);
            }
            if t.sign == Sign::Mul {
                let (nonlits, prod) = match flat_mul(&kids, 0, Rat { num: 1, den: 1 }) {
                    Err(er) => {
                        return Err(er);
                    },
                    Ok(p) => p,
                };
                if nonlits.len() == 0 {
                    Ok(AST::Number(prod))
                } else {
                    let mut out = nonlits;
                    if !prod.is_one() {
                        proof {
                            lemma_models_index(out@, 0);
                            lemma_all_wf_pointwise(out@);
                        }
                        let ghost oldv = out@;
                        out.push(Box::new(AST::Number(prod)));
                        proof {
                            lemma_models_index(out@, 0);
                            assert(models(out@, 0) =~= models(oldv, 0) + seq![AstV::Number(prod)]);
                            lemma_all_wf_pointwise(out@);
                        }
                    }
                    proof {
                        lemma_models_index(out@, 0);
                        lemma_all_wf_pointwise(out@);
                    }
                    if out.len() == 1 {
                        let mut out = out;
                        match out.pop() {
                            Option::Some(b) => Ok(*b),
                            Option::None => Ok(AST::Number(prod)),
                        }
                    } else {
                        Ok(AST::Term(Term { sign: Sign::Mul, term: out }))
                    }
                }
            } else {
                if kids.len() == 1 {
                    let mut kids = kids;
                    match kids.pop() {
                        Option::Some(b) => Ok(*b),
                        Option::None => Ok(AST::Number(Rat { num: 1, den: 1 })),
                    }
                } else {
                    Ok(AST::Term(Term { sign: t.sign, term: kids }))
                }
            }
        },
        AST::Index(ix) => {
            let b = match expand(&ix.base) {
                Err(e) => {
                    return Err(e);
                },
                Ok(b) => b,
            };
            let ex = match expand(&ix.exponent) {
                Err(e) => {
                    return Err(e);
                },
                Ok(ex) => ex,
            };
            let fold: Option<Rat> = match (&b, &ex) {
                (AST::Number(rb), AST::Number(re)) => match rb.checked_pow(*re) {
                    Ok(v) => Option::Some(v),
                    Err(_) => Option::None,
                },
                _ => Option::None,
            };
            match fold {
                Option::Some(v) => Ok(AST::Number(v)),
                Option::None => Ok(
                    AST::Index(
                        crate::ast::Index {
                            sign: ix.sign,
                            base: Box::new(b),
                            exponent: Box::new(ex),
                        },
                    ),
                ),
            }
        },
        AST::Call(c) => {
            proof {
                lemma_models_index(c.call@, 0);
                lemma_all_wf_pointwise(c.call@);
            }
            let a0 = match expand(&c.call[0]) {
                Err(e) => {
                    return Err(e);
                },
                Ok(a0) => a0,
            };
            let fold: Option<Rat> = match &a0 {
                AST::Number(rv) => {
                    if crate::eval::is_known_call(&c.name) {
                        match crate::eval::apply_call(&c.name, *rv) {
                            Ok(v) => Option::Some(v),
                            Err(_) => Option::None,
                        }
                    } else {
                        Option::None
                    }
                },
                _ => Option::None,
            };
            match fold {
                Option::Some(v) => Ok(AST::Number(v)),
                Option::None => Ok(
                    AST::Call(crate::ast::Call { name: c.name.clone(), call: one_child(a0) }),
                ),
            }
        },
        AST::Identity(idn) => {
            proof {
                lemma_models_index(idn.identity@, 0);
            }
            let ms = match expand_children(&idn.identity, 0) {
                Err(e) => {
                    return Err(e);
                },
                Ok(ms) => ms,
            };
            Ok(AST::Identity(Identity { identity: ms }))
        },
        AST::Statement(s) => expand(&s.statement),
    }
}

/// Expands every child from index `i` on.
fn expand_children(v: &Vec<Box<AST>>, i: usize) -> (r: Result<Vec<Box<AST>>, NumError>)
    requires
        all_wf(v@),
    ensures
        ({
            let m = spec_expand_children(models(v@, 0), i as int);
            match r {
                Ok(out) => m == Ok::<Seq<AstV>, NumError>(models(out@, 0)) && all_wf(out@) && (
                i <= v@.len() ==> out@.len() == v@.len() - i),
                Err(e) => m == Err::<Seq<AstV>, NumError>(e),
            }
        }),
    decreases v, v@.len() - i,
{
    proof {
        lemma_models_index(v@, 0);
        lemma_all_wf_pointwise(v@);
    }
    if i >= v.len() {
        return Ok(Vec::new());
    }
    let c = match expand(&v[i]) {
        Err(e) => {
            return Err(e);
        },
        Ok(c) => c,
    };
    let rest = match expand_children(v, i + 1) {
        Err(e) => {
            return Err(e);
        },
        Ok(rest) => rest,
    };
    Ok(cons_child(c, rest))
}


/// Is this node an additive chain joined by `+`?
pub open spec fn spec_is_add_expr(t: AstV) -> bool {
    match t {
        AstV::Expr { sign, children } => sign == Sign::Add,
        _ => false,
    }
}

/// Is this node a multiplicative chain joined by `*`?
pub open spec fn spec_is_mul_term(t: AstV) -> bool {
    match t {
        AstV::Term { sign, children } => sign == Sign::Mul,
        _ => false,
    }
}

/// Does the sequence hold a `+` chain at or after index `i`?
pub open spec fn has_add_child(s: Seq<AstV>, i: int) -> bool
    decreases s.len() - i,
{
    if i < 0 || i >= s.len() {
        false
    } else {
        spec_is_add_expr(s[i]) || has_add_child(s, i + 1)
    }
}

/// Does the sequence hold a `*` chain at or after index `i`?
pub open spec fn has_mul_child(s: Seq<AstV>, i: int) -> bool
    decreases s.len() - i,
{
    if i < 0 || i >= s.len() {
        false
    } else {
        spec_is_mul_term(s[i]) || has_mul_child(s, i + 1)
    }
}

/// The post-expand shape invariant: every additive or multiplicative
/// chain holds at least two children, a `+` chain holds no direct `+`
/// chain and a `*` chain no direct `*` chain (fully flattened), while
/// `+-` and `-` chains, which never flatten, are exempt from the
/// same-sign clause.
pub open spec fn expanded_inv(a: AstV) -> bool
    decreases a, 0int,
{
    match a {
        AstV::Expr { sign, children } => children.len() >= 2 && (sign == Sign::Add
            ==> !has_add_child(children, 0)) && all_inv(children, 0),
        AstV::Term { sign, children } => children.len() >= 2 && (sign == Sign::Mul
            ==> !has_mul_child(children, 0)) && all_inv(children, 0),
        AstV::Unary { sign, operand } => expanded_inv(*operand),
        AstV::Index { sign, base, exponent } => expanded_inv(*base) && expanded_inv(*exponent),
        AstV::Call { name, args } => all_inv(args, 0),
        AstV::Identity(members) => all_inv(members, 0),
        AstV::Statement { body, command } => expanded_inv(*body),
        _ => true,
    }
}

/// Every node from index `i` on satisfies the shape invariant.
pub open spec fn all_inv(s: Seq<AstV>, i: int) -> bool
    decreases s, s.len() - i,
{
    if i < 0 || i >= s.len() {
        true
    } else {
        expanded_inv(s[i]) && all_inv(s, i + 1)
    }
}

/// `all_inv` holds exactly when every element does.
pub proof fn lemma_all_inv_pointwise(s: Seq<AstV>, k: int)
    requires
        0 <= k <= s.len(),
    ensures
        all_inv(s, k) <==> (forall|j: int| k <= j < s.len() ==> #[trigger] expanded_inv(s[j])),
    decreases s.len() - k,
{
    if k < s.len() {
        lemma_all_inv_pointwise(s, k + 1);
        if all_inv(s, k) {
            assert forall|j: int| k <= j < s.len() implies #[trigger] expanded_inv(s[j]) by {
                if j > k {
                    assert(expanded_inv(s[j]));
                }
            }
        } else {
            if forall|j: int| k <= j < s.len() ==> #[trigger] expanded_inv(s[j]) {
                assert(expanded_inv(s[k]));
                assert(all_inv(s, k + 1));
                assert(all_inv(s, k));
            }
        }
    }
}

/// `has_add_child` holds exactly when some element is a `+` chain.
pub proof fn lemma_has_add_pointwise(s: Seq<AstV>, k: int)
    requires
        0 <= k <= s.len(),
    ensures
        has_add_child(s, k) <==> (exists|j: int|
            k <= j < s.len() && #[trigger] spec_is_add_expr(s[j])),
    decreases s.len() - k,
{
    if k < s.len() {
        lemma_has_add_pointwise(s, k + 1);
        if spec_is_add_expr(s[k]) {
            assert(k <= k < s.len() && spec_is_add_expr(s[k]));
        }
    }
}

/// `has_mul_child` holds exactly when some element is a `*` chain.
pub proof fn lemma_has_mul_pointwise(s: Seq<AstV>, k: int)
    requires
        0 <= k <= s.len(),
    ensures
        has_mul_child(s, k) <==> (exists|j: int|
            k <= j < s.len() && #[trigger] spec_is_mul_term(s[j])),
    decreases s.len() - k,
{
    if k < s.len() {
        lemma_has_mul_pointwise(s, k + 1);
        if spec_is_mul_term(s[k]) {
            assert(k <= k < s.len() && spec_is_mul_term(s[k]));
        }
    }
}

/// Splicing the children of an invariant `+` chain keeps the invariant
/// and introduces no `+` chain.
proof fn lemma_splice_add_inv(g: Seq<AstV>, j: int, sum: Rat)
    requires
        0 <= j,
        all_inv(g, j),
        !has_add_child(g, j),
    ensures
        ({
            match spec_splice_add(g, j, sum) {
                Ok((out, _)) => all_inv(out, 0) && !has_add_child(out, 0),
                Err(_) => true,
            }
        }),
    decreases g.len() - j,
{
    if 0 <= j < g.len() {
        match g[j] {
            AstV::Number(r) => {
                match sum.spec_add(r) {
                    Option::None => {},
                    Option::Some(s2) => {
                        lemma_splice_add_inv(g, j + 1, s2);
                    },
                }
            },
            _ => {
                lemma_splice_add_inv(g, j + 1, sum);
                match spec_splice_add(g, j + 1, sum) {
                    Err(_) => {},
                    Ok((rest, _)) => {
                        let out = seq![g[j]] + rest;
                        lemma_all_inv_pointwise(rest, 0);
                        lemma_all_inv_pointwise(out, 0);
                        lemma_has_add_pointwise(rest, 0);
                        lemma_has_add_pointwise(out, 0);
                        assert forall|m: int| 0 <= m < out.len() implies #[trigger] expanded_inv(
                            out[m],
                        ) by {
                            if m > 0 {
                                assert(expanded_inv(rest[m - 1]));
                            }
                        }
                    },
                }
            },
        }
    }
}

/// Folding an invariant `+` chain's children keeps the invariant of
/// what stays and leaves no direct `+` chain.
proof fn lemma_flat_add_inv(kids: Seq<AstV>, i: int, sum: Rat)
    requires
        0 <= i,
        all_inv(kids, i),
    ensures
        ({
            match spec_flat_add(kids, i, sum) {
                Ok((out, _)) => all_inv(out, 0) && !has_add_child(out, 0),
                Err(_) => true,
            }
        }),
    decreases kids.len() - i,
{
    if 0 <= i < kids.len() {
        match kids[i] {
            AstV::Number(r) => {
                match sum.spec_add(r) {
                    Option::None => {},
                    Option::Some(s2) => {
                        lemma_flat_add_inv(kids, i + 1, s2);
                    },
                }
            },
            AstV::Expr { sign: Sign::Add, children: g } => {
                assert(expanded_inv(kids[i]));
                lemma_splice_add_inv(g, 0, sum);
                match spec_splice_add(g, 0, sum) {
                    Err(_) => {},
                    Ok((inner, s2)) => {
                        lemma_flat_add_inv(kids, i + 1, s2);
                        match spec_flat_add(kids, i + 1, s2) {
                            Err(_) => {},
                            Ok((rest, _)) => {
                                let out = inner + rest;
                                lemma_all_inv_pointwise(inner, 0);
                                lemma_all_inv_pointwise(rest, 0);
                                lemma_all_inv_pointwise(out, 0);
                                lemma_has_add_pointwise(inner, 0);
                                lemma_has_add_pointwise(rest, 0);
                                lemma_has_add_pointwise(out, 0);
                                assert forall|m: int|
                                    0 <= m < out.len() implies #[trigger] expanded_inv(out[m]) by {
                                    if m < inner.len() {
                                        assert(expanded_inv(inner[m]));
                                    } else {
                                        assert(expanded_inv(rest[m - inner.len()]));
                                    }
                                }
                                assert forall|m: int|
                                    0 <= m < out.len() implies !#[trigger] spec_is_add_expr(
                                    out[m],
                                ) by {
                                    if m < inner.len() {
                                        assert(!spec_is_add_expr(inner[m]));
                                    } else {
                                        assert(!spec_is_add_expr(rest[m - inner.len()]));
                                    }
                                }
                            },
                        }
                    },
                }
            },
            _ => {
                lemma_flat_add_inv(kids, i + 1, sum);
                match spec_flat_add(kids, i + 1, sum) {
                    Err(_) => {},
                    Ok((rest, _)) => {
                        let out = seq![kids[i]] + rest;
                        lemma_all_inv_pointwise(rest, 0);
                        lemma_all_inv_pointwise(out, 0);
                        lemma_has_add_pointwise(rest, 0);
                        lemma_has_add_pointwise(out, 0);
                        assert forall|m: int| 0 <= m < out.len() implies #[trigger] expanded_inv(
                            out[m],
                        ) by {
                            if m > 0 {
                                assert(expanded_inv(rest[m - 1]));
                            }
                        }
                        assert forall|m: int| 0 <= m < out.len() implies !#[trigger] spec_is_add_expr(
                            out[m],
                        ) by {
                            if m > 0 {
                                assert(!spec_is_add_expr(rest[m - 1]));
                            }
                        }
                    },
                }
            },
        }
    }
}

/// The `*` analogue of `lemma_splice_add_inv`.
proof fn lemma_splice_mul_inv(g: Seq<AstV>, j: int, prod: Rat)
    requires
        0 <= j,
        all_inv(g, j),
        !has_mul_child(g, j),
    ensures
        ({
            match spec_splice_mul(g, j, prod) {
                Ok((out, _)) => all_inv(out, 0) && !has_mul_child(out, 0),
                Err(_) => true,
            }
        }),
    decreases g.len() - j,
{
    if 0 <= j < g.len() {
        match g[j] {
            AstV::Number(r) => {
                match prod.spec_mul(r) {
                    Option::None => {},
                    Option::Some(p2) => {
                        lemma_splice_mul_inv(g, j + 1, p2);
                    },
                }
            },
            _ => {
                lemma_splice_mul_inv(g, j + 1, prod);
                match spec_splice_mul(g, j + 1, prod) {
                    Err(_) => {},
                    Ok((rest, _)) => {
                        let out = seq![g[j]] + rest;
                        lemma_all_inv_pointwise(rest, 0);
                        lemma_all_inv_pointwise(out, 0);
                        lemma_has_mul_pointwise(rest, 0);
                        lemma_has_mul_pointwise(out, 0);
                        assert forall|m: int| 0 <= m < out.len() implies #[trigger] expanded_inv(
                            out[m],
                        ) by {
                            if m > 0 {
                                assert(expanded_inv(rest[m - 1]));
                            }
                        }
                    },
                }
            },
        }
    }
}

/// The `*` analogue of `lemma_flat_add_inv`.
proof fn lemma_flat_mul_inv(kids: Seq<AstV>, i: int, prod: Rat)
    requires
        0 <= i,
        all_inv(kids, i),
    ensures
        ({
            match spec_flat_mul(kids, i, prod) {
                Ok((out, _)) => all_inv(out, 0) && !has_mul_child(out, 0),
                Err(_) => true,
            }
        }),
    decreases kids.len() - i,
{
    if 0 <= i < kids.len() {
        match kids[i] {
            AstV::Number(r) => {
                match prod.spec_mul(r) {
                    Option::None => {},
                    Option::Some(p2) => {
                        lemma_flat_mul_inv(kids, i + 1, p2);
                    },
                }
            },
            AstV::Term { sign: Sign::Mul, children: g } => {
                assert(expanded_inv(kids[i]));
                lemma_splice_mul_inv(g, 0, prod);
                match spec_splice_mul(g, 0, prod) {
                    Err(_) => {},
                    Ok((inner, p2)) => {
                        lemma_flat_mul_inv(kids, i + 1, p2);
                        match spec_flat_mul(kids, i + 1, p2) {
                            Err(_) => {},
                            Ok((rest, _)) => {
                                let out = inner + rest;
                                lemma_all_inv_pointwise(inner, 0);
                                lemma_all_inv_pointwise(rest, 0);
                                lemma_all_inv_pointwise(out, 0);
                                lemma_has_mul_pointwise(inner, 0);
                                lemma_has_mul_pointwise(rest, 0);
                                lemma_has_mul_pointwise(out, 0);
                                assert forall|m: int|
                                    0 <= m < out.len() implies #[trigger] expanded_inv(out[m]) by {
                                    if m < inner.len() {
                                        assert(expanded_inv(inner[m]));
                                    } else {
                                        assert(expanded_inv(rest[m - inner.len()]));
                                    }
                                }
                                assert forall|m: int|
                                    0 <= m < out.len() implies !#[trigger] spec_is_mul_term(
                                    out[m],
                                ) by {
                                    if m < inner.len() {
                                        assert(!spec_is_mul_term(inner[m]));
                                    } else {
                                        assert(!spec_is_mul_term(rest[m - inner.len()]));
                                    }
                                }
                            },
                        }
                    },
                }
            },
            _ => {
                lemma_flat_mul_inv(kids, i + 1, prod);
                match spec_flat_mul(kids, i + 1, prod) {
                    Err(_) => {},
                    Ok((rest, _)) => {
                        let out = seq![kids[i]] + rest;
                        lemma_all_inv_pointwise(rest, 0);
                        lemma_all_inv_pointwise(out, 0);
                        lemma_has_mul_pointwise(rest, 0);
                        lemma_has_mul_pointwise(out, 0);
                        assert forall|m: int| 0 <= m < out.len() implies #[trigger] expanded_inv(
                            out[m],
                        ) by {
                            if m > 0 {
                                assert(expanded_inv(rest[m - 1]));
                            }
                        }
                        assert forall|m: int| 0 <= m < out.len() implies !#[trigger] spec_is_mul_term(
                            out[m],
                        ) by {
                            if m > 0 {
                                assert(!spec_is_mul_term(rest[m - 1]));
                            }
                        }
                    },
                }
            },
        }
    }
}

/// Splitting the tail of an invariant `-` chain keeps the invariant of
/// what stays.
proof fn lemma_sub_split_inv(kids: Seq<AstV>, i: int, total: Rat)
    requires
        0 <= i,
        all_inv(kids, i),
    ensures
        ({
            match spec_sub_split(kids, i, total) {
                Ok((out, _)) => all_inv(out, 0),
                Err(_) => true,
            }
        }),
    decreases kids.len() - i,
{
    if 0 <= i < kids.len() {
        match kids[i] {
            AstV::Number(r) => {
                match total.spec_add(r) {
                    Option::None => {},
                    Option::Some(t2) => {
                        lemma_sub_split_inv(kids, i + 1, t2);
                    },
                }
            },
            _ => {
                lemma_sub_split_inv(kids, i + 1, total);
                match spec_sub_split(kids, i + 1, total) {
                    Err(_) => {},
                    Ok((rest, _)) => {
                        let out = seq![kids[i]] + rest;
                        lemma_all_inv_pointwise(rest, 0);
                        lemma_all_inv_pointwise(out, 0);
                        assert forall|m: int| 0 <= m < out.len() implies #[trigger] expanded_inv(
                            out[m],
                        ) by {
                            if m > 0 {
                                assert(expanded_inv(rest[m - 1]));
                            }
                        }
                    },
                }
            },
        }
    }
}

/// The post-expand invariant: whenever `expand` succeeds, no additive
/// or multiplicative chain of the result has fewer than two children,
/// a `+` chain holds no direct `+` chain, and a `*` chain holds no
/// direct `*` chain; the `+-` and `-` chains, which never flatten, are
/// exempt from the same-sign clause.
pub proof fn lemma_expand_flattened(a: AstV)
    ensures
        spec_expand(a) is Ok ==> expanded_inv(spec_expand(a)->Ok_0),
    decreases a, 1int,
{
    match a {
        AstV::Unary { sign, operand } => {
            lemma_expand_flattened(*operand);
        },
        AstV::Expr { sign, children } => {
            lemma_expand_children_inv(children, 0);
            match spec_expand_children(children, 0) {
                Err(_) => {},
                Ok(kids) => {
                    if sign == Sign::Add {
                        lemma_flat_add_inv(kids, 0, spec_rat_zero());
                        match spec_flat_add(kids, 0, spec_rat_zero()) {
                            Err(_) => {},
                            Ok((nonlits, sum)) => {
                                lemma_all_inv_pointwise(nonlits, 0);
                                lemma_has_add_pointwise(nonlits, 0);
                                if !sum.spec_is_zero() {
                                    let out = seq![AstV::Number(sum)] + nonlits;
                                    lemma_all_inv_pointwise(out, 0);
                                    lemma_has_add_pointwise(out, 0);
                                    assert forall|m: int|
                                        0 <= m < out.len() implies #[trigger] expanded_inv(
                                        out[m],
                                    ) by {
                                        if m > 0 {
                                            assert(expanded_inv(nonlits[m - 1]));
                                        }
                                    }
                                    assert forall|m: int|
                                        0 <= m < out.len() implies !#[trigger] spec_is_add_expr(
                                        out[m],
                                    ) by {
                                        if m > 0 {
                                            assert(!spec_is_add_expr(nonlits[m - 1]));
                                        }
                                    }
                                }
                            },
                        }
                    } else if sign == Sign::Sub {
                        if kids.len() > 0 {
                            lemma_sub_split_inv(kids, 1, spec_rat_zero());
                            lemma_all_inv_pointwise(kids, 0);
                            match spec_sub_split(kids, 1, spec_rat_zero()) {
                                Err(_) => {},
                                Ok((nonlits, total)) => {
                                    lemma_all_inv_pointwise(nonlits, 0);
                                    match kids[0] {
                                        AstV::Number(r0) => {
                                            match r0.spec_sub(total) {
                                                Option::None => {},
                                                Option::Some(folded) => {
                                                    if nonlits.len() != 0 {
                                                        let out = seq![AstV::Number(folded)]
                                                            + nonlits;
                                                        lemma_all_inv_pointwise(out, 0);
                                                        assert forall|m: int|
                                                            0 <= m < out.len() implies #[trigger] expanded_inv(
                                                            out[m],
                                                        ) by {
                                                            if m > 0 {
                                                                assert(expanded_inv(
                                                                    nonlits[m - 1],
                                                                ));
                                                            }
                                                        }
                                                    }
                                                },
                                            }
                                        },
                                        _ => {
                                            let tail: Seq<AstV> = if total.spec_is_zero() {
                                                Seq::empty()
                                            } else {
                                                seq![AstV::Number(total)]
                                            };
                                            let out = seq![kids[0]] + nonlits + tail;
                                            lemma_all_inv_pointwise(out, 0);
                                            assert forall|m: int|
                                                0 <= m < out.len() implies #[trigger] expanded_inv(
                                                out[m],
                                            ) by {
                                                if m == 0 {
                                                    assert(expanded_inv(kids[0]));
                                                } else if m < 1 + nonlits.len() {
                                                    assert(expanded_inv(nonlits[m - 1]));
                                                } else {
                                                    assert(out[m] == AstV::Number(total));
                                                }
                                            }
                                        },
                                    }
                                },
                            }
                        }
                    } else {
                        lemma_all_inv_pointwise(kids, 0);
                    }
                },
            }
        },
        AstV::Term { sign, children } => {
            lemma_expand_children_inv(children, 0);
            match spec_expand_children(children, 0) {
                Err(_) => {},
                Ok(kids) => {
                    if sign == Sign::Mul {
                        lemma_flat_mul_inv(kids, 0, crate::rat::spec_rat_one());
                        match spec_flat_mul(kids, 0, crate::rat::spec_rat_one()) {
                            Err(_) => {},
                            Ok((nonlits, prod)) => {
                                lemma_all_inv_pointwise(nonlits, 0);
                                lemma_has_mul_pointwise(nonlits, 0);
                                if nonlits.len() != 0 && !prod.spec_is_one() {
                                    let out = nonlits + seq![AstV::Number(prod)];
                                    lemma_all_inv_pointwise(out, 0);
                                    lemma_has_mul_pointwise(out, 0);
                                    assert forall|m: int|
                                        0 <= m < out.len() implies #[trigger] expanded_inv(
                                        out[m],
                                    ) by {
                                        if m < nonlits.len() {
                                            assert(expanded_inv(nonlits[m]));
                                        } else {
                                            assert(out[m] == AstV::Number(prod));
                                        }
                                    }
                                    assert forall|m: int|
                                        0 <= m < out.len() implies !#[trigger] spec_is_mul_term(
                                        out[m],
                                    ) by {
                                        if m < nonlits.len() {
                                            assert(!spec_is_mul_term(nonlits[m]));
                                        } else {
                                            assert(out[m] == AstV::Number(prod));
                                        }
                                    }
                                }
                            },
                        }
                    } else {
                        lemma_all_inv_pointwise(kids, 0);
                    }
                },
            }
        },
        AstV::Index { sign, base, exponent } => {
            lemma_expand_flattened(*base);
            lemma_expand_flattened(*exponent);
        },
        AstV::Call { name, args } => {
            if args.len() > 0 {
                lemma_expand_flattened(args[0]);
                match spec_expand(args[0]) {
                    Err(_) => {},
                    Ok(a0) => {
                        let kept = seq![a0];
                        lemma_all_inv_pointwise(kept, 0);
                        let kept2 = seq![AstV::Number(Rat { num: 0, den: 1 })];
                        assert(all_inv(seq![a0], 0));
                    },
                }
            } else {
                lemma_all_inv_pointwise(args, 0);
            }
        },
        AstV::Identity(members) => {
            lemma_expand_children_inv(members, 0);
            match spec_expand_children(members, 0) {
                Err(_) => {},
                Ok(ms) => {
                    lemma_all_inv_pointwise(ms, 0);
                },
            }
        },
        AstV::Statement { body, command } => {
            lemma_expand_flattened(*body);
        },
        _ => {},
    }
}

/// Every expanded child satisfies the shape invariant.
proof fn lemma_expand_children_inv(children: Seq<AstV>, i: int)
    requires
        0 <= i,
    ensures
        ({
            match spec_expand_children(children, i) {
                Ok(out) => all_inv(out, 0),
                Err(_) => true,
            }
        }),
    decreases children, children.len() - i,
{
    if 0 <= i < children.len() {
        lemma_expand_flattened(children[i]);
        match spec_expand(children[i]) {
            Err(_) => {},
            Ok(c) => {
                lemma_expand_children_inv(children, i + 1);
                match spec_expand_children(children, i + 1) {
                    Err(_) => {},
                    Ok(rest) => {
                        let out = seq![c] + rest;
                        lemma_all_inv_pointwise(rest, 0);
                        lemma_all_inv_pointwise(out, 0);
                        assert forall|m: int| 0 <= m < out.len() implies #[trigger] expanded_inv(
                            out[m],
                        ) by {
                            if m > 0 {
                                assert(expanded_inv(rest[m - 1]));
                            }
                        }
                    },
                }
            },
        }
    }
}


/// No element of `s[i..j)` is a literal.
pub open spec fn no_number_range(s: Seq<AstV>, i: int, j: int) -> bool
    decreases j - i,
{
    i >= j || i < 0 || (!(s[i] is Number) && no_number_range(s, i + 1, j))
}

/// `no_number_range` holds exactly when no element in range is a
/// literal.
pub proof fn lemma_no_number_pointwise(s: Seq<AstV>, i: int, j: int)
    requires
        0 <= i,
        j <= s.len(),
    ensures
        no_number_range(s, i, j) <==> (forall|m: int| i <= m < j ==> !(#[trigger] s[m] is Number)),
    decreases j - i,
{
    if i < j {
        lemma_no_number_pointwise(s, i + 1, j);
    }
}

/// The canonical shape of an expanded `+` chain: any literal stands
/// first and is nonzero, and nothing else is a literal.
pub open spec fn add_shape(children: Seq<AstV>) -> bool {
    !has_add_child(children, 0) && children.len() >= 1 && match children[0] {
        AstV::Number(r) => !r.spec_is_zero() && no_number_range(
            children,
            1,
            children.len() as int,
        ),
        _ => no_number_range(children, 0, children.len() as int),
    }
}

/// The canonical shape of an expanded `-` chain: a literal head
/// absorbs every other literal; otherwise at most one literal stands
/// last and is nonzero.
pub open spec fn sub_shape(children: Seq<AstV>) -> bool {
    children.len() >= 1 && match children[0] {
        AstV::Number(r) => no_number_range(children, 1, children.len() as int),
        _ => match children[children.len() - 1] {
            AstV::Number(l) => !l.spec_is_zero() && no_number_range(
                children,
                1,
                children.len() as int - 1,
            ),
            _ => no_number_range(children, 1, children.len() as int),
        },
    }
}

/// The canonical shape of an expanded `*` chain: any literal stands
/// last and is not one, and nothing else is a literal.
pub open spec fn mul_shape(children: Seq<AstV>) -> bool {
    !has_mul_child(children, 0) && children.len() >= 1 && match children[children.len() - 1] {
        AstV::Number(p) => !p.spec_is_one() && no_number_range(
            children,
            0,
            children.len() as int - 1,
        ),
        _ => no_number_range(children, 0, children.len() as int),
    }
}

/// A tree the normalizer maps to itself, characterized by shape: the
/// canonical chains above, unary signs that survive, powers and calls
/// whose exact folding failed, and so on recursively.
pub open spec fn sfixed(a: AstV) -> bool
    decreases a, 1int,
{
    match a {
        AstV::Expr { sign, children } => sfixed_all(children, 0) && children.len() >= 2 && (sign
            == Sign::Add ==> add_shape(children)) && (sign == Sign::Sub ==> sub_shape(children)),
        AstV::Term { sign, children } => sfixed_all(children, 0) && children.len() >= 2 && (sign
            == Sign::Mul ==> mul_shape(children)),
        AstV::Unary { sign, operand } => sfixed(*operand) && sign != Sign::Add && (sign
            == Sign::Sub ==> !(*operand is Number)),
        AstV::Index { sign, base, exponent } => sfixed(*base) && sfixed(*exponent) && match (
            *base,
            *exponent,
        ) {
            (AstV::Number(rb), AstV::Number(re)) => rb.spec_pow(re) is Err,
            _ => true,
        },
        AstV::Call { name, args } => if args.len() == 0 {
            true
        } else {
            args.len() == 1 && sfixed(args[0]) && match args[0] {
                AstV::Number(r) => spec_known_call(name) ==> spec_apply_call(name, r) is Err,
                _ => true,
            }
        },
        AstV::Identity(members) => sfixed_all(members, 0),
        AstV::Statement { body, command } => false,
        _ => true,
    }
}

/// Every node from index `i` on is a fixed point of the normalizer.
pub open spec fn sfixed_all(s: Seq<AstV>, i: int) -> bool
    decreases s, s.len() - i,
{
    if i < 0 || i >= s.len() {
        true
    } else {
        sfixed(s[i]) && sfixed_all(s, i + 1)
    }
}

/// `sfixed_all` holds exactly when every element is fixed.
pub proof fn lemma_sfixed_all_pointwise(s: Seq<AstV>, k: int)
    requires
        0 <= k <= s.len(),
    ensures
        sfixed_all(s, k) <==> (forall|j: int| k <= j < s.len() ==> #[trigger] sfixed(s[j])),
    decreases s.len() - k,
{
    if k < s.len() {
        lemma_sfixed_all_pointwise(s, k + 1);
        if sfixed_all(s, k) {
            assert forall|j: int| k <= j < s.len() implies #[trigger] sfixed(s[j]) by {
                if j > k {
                    assert(sfixed(s[j]));
                }
            }
        } else {
            if forall|j: int| k <= j < s.len() ==> #[trigger] sfixed(s[j]) {
                assert(sfixed(s[k]));
                assert(sfixed_all(s, k + 1));
                assert(sfixed_all(s, k));
            }
        }
    }
}

/// What splicing an expanded `+` chain keeps: fixed, literal-free,
/// `+`-chain-free elements.
proof fn lemma_splice_add_sfixed(g: Seq<AstV>, j: int, sum: Rat)
    requires
        0 <= j,
        sfixed_all(g, j),
        !has_add_child(g, j),
    ensures
        ({
            match spec_splice_add(g, j, sum) {
                Ok((out, _)) => sfixed_all(out, 0) && no_number_range(out, 0, out.len() as int)
                    && !has_add_child(out, 0),
                Err(_) => true,
            }
        }),
    decreases g.len() - j,
{
    if 0 <= j < g.len() {
        match g[j] {
            AstV::Number(r) => {
                match sum.spec_add(r) {
                    Option::None => {},
                    Option::Some(s2) => {
                        lemma_splice_add_sfixed(g, j + 1, s2);
                    },
                }
            },
            _ => {
                lemma_splice_add_sfixed(g, j + 1, sum);
                match spec_splice_add(g, j + 1, sum) {
                    Err(_) => {},
                    Ok((rest, _)) => {
                        let out = seq![g[j]] + rest;
                        lemma_sfixed_all_pointwise(rest, 0);
                        lemma_sfixed_all_pointwise(out, 0);
                        lemma_no_number_pointwise(rest, 0, rest.len() as int);
                        lemma_no_number_pointwise(out, 0, out.len() as int);
                        lemma_has_add_pointwise(rest, 0);
                        lemma_has_add_pointwise(out, 0);
                        assert forall|m: int| 0 <= m < out.len() implies #[trigger] sfixed(out[m])
                            && !(out[m] is Number) && !spec_is_add_expr(out[m]) by {
                            if m > 0 {
                                assert(sfixed(rest[m - 1]));
                                assert(!(rest[m - 1] is Number));
                                assert(!spec_is_add_expr(rest[m - 1]));
                            }
                        }
                    },
                }
            },
        }
    }
}

/// What folding an expanded `+` chain keeps: fixed, literal-free,
/// `+`-chain-free elements.
proof fn lemma_flat_add_sfixed(kids: Seq<AstV>, i: int, sum: Rat)
    requires
        0 <= i,
        sfixed_all(kids, i),
    ensures
        ({
            match spec_flat_add(kids, i, sum) {
                Ok((out, _)) => sfixed_all(out, 0) && no_number_range(out, 0, out.len() as int)
                    && !has_add_child(out, 0),
                Err(_) => true,
            }
        }),
    decreases kids.len() - i,
{
    if 0 <= i < kids.len() {
        match kids[i] {
            AstV::Number(r) => {
                match sum.spec_add(r) {
                    Option::None => {},
                    Option::Some(s2) => {
                        lemma_flat_add_sfixed(kids, i + 1, s2);
                    },
                }
            },
            AstV::Expr { sign: Sign::Add, children: g } => {
                assert(sfixed(kids[i]));
                lemma_splice_add_sfixed(g, 0, sum);
                match spec_splice_add(g, 0, sum) {
                    Err(_) => {},
                    Ok((inner, s2)) => {
                        lemma_flat_add_sfixed(kids, i + 1, s2);
                        match spec_flat_add(kids, i + 1, s2) {
                            Err(_) => {},
                            Ok((rest, _)) => {
                                let out = inner + rest;
                                lemma_sfixed_all_pointwise(inner, 0);
                                lemma_sfixed_all_pointwise(rest, 0);
                                lemma_sfixed_all_pointwise(out, 0);
                                lemma_no_number_pointwise(inner, 0, inner.len() as int);
                                lemma_no_number_pointwise(rest, 0, rest.len() as int);
                                lemma_no_number_pointwise(out, 0, out.len() as int);
                                lemma_has_add_pointwise(inner, 0);
                                lemma_has_add_pointwise(rest, 0);
                                lemma_has_add_pointwise(out, 0);
                                assert forall|m: int| 0 <= m < out.len() implies #[trigger] sfixed(
                                    out[m],
                                ) && !(out[m] is Number) && !spec_is_add_expr(out[m]) by {
                                    if m < inner.len() {
                                        assert(sfixed(inner[m]));
                                        assert(!(inner[m] is Number));
                                        assert(!spec_is_add_expr(inner[m]));
                                    } else {
                                        assert(sfixed(rest[m - inner.len()]));
                                        assert(!(rest[m - inner.len()] is Number));
                                        assert(!spec_is_add_expr(rest[m - inner.len()]));
                                    }
                                }
                            },
                        }
                    },
                }
            },
            _ => {
                lemma_flat_add_sfixed(kids, i + 1, sum);
                match spec_flat_add(kids, i + 1, sum) {
                    Err(_) => {},
                    Ok((rest, _)) => {
                        let out = seq![kids[i]] + rest;
                        lemma_sfixed_all_pointwise(rest, 0);
                        lemma_sfixed_all_pointwise(out, 0);
                        lemma_no_number_pointwise(rest, 0, rest.len() as int);
                        lemma_no_number_pointwise(out, 0, out.len() as int);
                        lemma_has_add_pointwise(rest, 0);
                        lemma_has_add_pointwise(out, 0);
                        assert forall|m: int| 0 <= m < out.len() implies #[trigger] sfixed(out[m])
                            && !(out[m] is Number) && !spec_is_add_expr(out[m]) by {
                            if m > 0 {
                                assert(sfixed(rest[m - 1]));
                                assert(!(rest[m - 1] is Number));
                                assert(!spec_is_add_expr(rest[m - 1]));
                            }
                        }
                    },
                }
            },
        }
    }
}

/// What splitting the tail of a `-` chain keeps: fixed, literal-free
/// elements.
proof fn lemma_sub_split_sfixed(kids: Seq<AstV>, i: int, total: Rat)
    requires
        0 <= i,
        sfixed_all(kids, i),
    ensures
        ({
            match spec_sub_split(kids, i, total) {
                Ok((out, _)) => sfixed_all(out, 0) && no_number_range(out, 0, out.len() as int),
                Err(_) => true,
            }
        }),
    decreases kids.len() - i,
{
    if 0 <= i < kids.len() {
        match kids[i] {
            AstV::Number(r) => {
                match total.spec_add(r) {
                    Option::None => {},
                    Option::Some(t2) => {
                        lemma_sub_split_sfixed(kids, i + 1, t2);
                    },
                }
            },
            _ => {
                lemma_sub_split_sfixed(kids, i + 1, total);
                match spec_sub_split(kids, i + 1, total) {
                    Err(_) => {},
                    Ok((rest, _)) => {
                        let out = seq![kids[i]] + rest;
                        lemma_sfixed_all_pointwise(rest, 0);
                        lemma_sfixed_all_pointwise(out, 0);
                        lemma_no_number_pointwise(rest, 0, rest.len() as int);
                        lemma_no_number_pointwise(out, 0, out.len() as int);
                        assert forall|m: int| 0 <= m < out.len() implies #[trigger] sfixed(out[m])
                            && !(out[m] is Number) by {
                            if m > 0 {
                                assert(sfixed(rest[m - 1]));
                                assert(!(rest[m - 1] is Number));
                            }
                        }
                    },
                }
            },
        }
    }
}

/// What splicing an expanded `*` chain keeps: fixed, literal-free,
/// `*`-chain-free elements.
proof fn lemma_splice_mul_sfixed(g: Seq<AstV>, j: int, prod: Rat)
    requires
        0 <= j,
        sfixed_all(g, j),
        !has_mul_child(g, j),
    ensures
        ({
            match spec_splice_mul(g, j, prod) {
                Ok((out, _)) => sfixed_all(out, 0) && no_number_range(out, 0, out.len() as int)
                    && !has_mul_child(out, 0),
                Err(_) => true,
            }
        }),
    decreases g.len() - j,
{
    if 0 <= j < g.len() {
        match g[j] {
            AstV::Number(r) => {
                match prod.spec_mul(r) {
                    Option::None => {},
                    Option::Some(p2) => {
                        lemma_splice_mul_sfixed(g, j + 1, p2);
                    },
                }
            },
            _ => {
                lemma_splice_mul_sfixed(g, j + 1, prod);
                match spec_splice_mul(g, j + 1, prod) {
                    Err(_) => {},
                    Ok((rest, _)) => {
                        let out = seq![g[j]] + rest;
                        lemma_sfixed_all_pointwise(rest, 0);
                        lemma_sfixed_all_pointwise(out, 0);
                        lemma_no_number_pointwise(rest, 0, rest.len() as int);
                        lemma_no_number_pointwise(out, 0, out.len() as int);
                        lemma_has_mul_pointwise(rest, 0);
                        lemma_has_mul_pointwise(out, 0);
                        assert forall|m: int| 0 <= m < out.len() implies #[trigger] sfixed(out[m])
                            && !(out[m] is Number) && !spec_is_mul_term(out[m]) by {
                            if m > 0 {
                                assert(sfixed(rest[m - 1]));
                                assert(!(rest[m - 1] is Number));
                                assert(!spec_is_mul_term(rest[m - 1]));
                            }
                        }
                    },
                }
            },
        }
    }
}

/// What folding an expanded `*` chain keeps: fixed, literal-free,
/// `*`-chain-free elements.
proof fn lemma_flat_mul_sfixed(kids: Seq<AstV>, i: int, prod: Rat)
    requires
        0 <= i,
        sfixed_all(kids, i),
    ensures
        ({
            match spec_flat_mul(kids, i, prod) {
                Ok((out, _)) => sfixed_all(out, 0) && no_number_range(out, 0, out.len() as int)
                    && !has_mul_child(out, 0),
                Err(_) => true,
            }
        }),
    decreases kids.len() - i,
{
    if 0 <= i < kids.len() {
        match kids[i] {
            AstV::Number(r) => {
                match prod.spec_mul(r) {
                    Option::None => {},
                    Option::Some(p2) => {
                        lemma_flat_mul_sfixed(kids, i + 1, p2);
                    },
                }
            },
            AstV::Term { sign: Sign::Mul, children: g } => {
                assert(sfixed(kids[i]));
                lemma_splice_mul_sfixed(g, 0, prod);
                match spec_splice_mul(g, 0, prod) {
                    Err(_) => {},
                    Ok((inner, p2)) => {
                        lemma_flat_mul_sfixed(kids, i + 1, p2);
                        match spec_flat_mul(kids, i + 1, p2) {
                            Err(_) => {},
                            Ok((rest, _)) => {
                                let out = inner + rest;
                                lemma_sfixed_all_pointwise(inner, 0);
                                lemma_sfixed_all_pointwise(rest, 0);
                                lemma_sfixed_all_pointwise(out, 0);
                                lemma_no_number_pointwise(inner, 0, inner.len() as int);
                                lemma_no_number_pointwise(rest, 0, rest.len() as int);
                                lemma_no_number_pointwise(out, 0, out.len() as int);
                                lemma_has_mul_pointwise(inner, 0);
                                lemma_has_mul_pointwise(rest, 0);
                                lemma_has_mul_pointwise(out, 0);
                                assert forall|m: int| 0 <= m < out.len() implies #[trigger] sfixed(
                                    out[m],
                                ) && !(out[m] is Number) && !spec_is_mul_term(out[m]) by {
                                    if m < inner.len() {
                                        assert(sfixed(inner[m]));
                                        assert(!(inner[m] is Number));
                                        assert(!spec_is_mul_term(inner[m]));
                                    } else {
                                        assert(sfixed(rest[m - inner.len()]));
                                        assert(!(rest[m - inner.len()] is Number));
                                        assert(!spec_is_mul_term(rest[m - inner.len()]));
                                    }
                                }
                            },
                        }
                    },
                }
            },
            _ => {
                lemma_flat_mul_sfixed(kids, i + 1, prod);
                match spec_flat_mul(kids, i + 1, prod) {
                    Err(_) => {},
                    Ok((rest, _)) => {
                        let out = seq![kids[i]] + rest;
                        lemma_sfixed_all_pointwise(rest, 0);
                        lemma_sfixed_all_pointwise(out, 0);
                        lemma_no_number_pointwise(rest, 0, rest.len() as int);
                        lemma_no_number_pointwise(out, 0, out.len() as int);
                        lemma_has_mul_pointwise(rest, 0);
                        lemma_has_mul_pointwise(out, 0);
                        assert forall|m: int| 0 <= m < out.len() implies #[trigger] sfixed(out[m])
                            && !(out[m] is Number) && !spec_is_mul_term(out[m]) by {
                            if m > 0 {
                                assert(sfixed(rest[m - 1]));
                                assert(!(rest[m - 1] is Number));
                                assert(!spec_is_mul_term(rest[m - 1]));
                            }
                        }
                    },
                }
            },
        }
    }
}

/// Every successful expansion lands in the canonical fixed shape.
proof fn lemma_expand_sfixed(a: AstV)
    ensures
        spec_expand(a) is Ok ==> sfixed(spec_expand(a)->Ok_0),
    decreases a, 1int,
{
    match a {
        AstV::Unary { sign, operand } => {
            lemma_expand_sfixed(*operand);
        },
        AstV::Expr { sign, children } => {
            lemma_expand_children_sfixed(children, 0);
            match spec_expand_children(children, 0) {
                Err(_) => {},
                Ok(kids) => {
                    if sign == Sign::Add {
                        lemma_flat_add_sfixed(kids, 0, spec_rat_zero());
                        match spec_flat_add(kids, 0, spec_rat_zero()) {
                            Err(_) => {},
                            Ok((nonlits, sum)) => {
                                lemma_sfixed_all_pointwise(nonlits, 0);
                                lemma_no_number_pointwise(nonlits, 0, nonlits.len() as int);
                                lemma_has_add_pointwise(nonlits, 0);
                                if !sum.spec_is_zero() {
                                    let out = seq![AstV::Number(sum)] + nonlits;
                                    lemma_sfixed_all_pointwise(out, 0);
                                    lemma_no_number_pointwise(out, 1, out.len() as int);
                                    lemma_has_add_pointwise(out, 0);
                                    assert forall|m: int| 0 <= m < out.len() implies #[trigger] sfixed(
                                        out[m],
                                    ) && !spec_is_add_expr(out[m]) by {
                                        if m > 0 {
                                            assert(sfixed(nonlits[m - 1]));
                                            assert(!spec_is_add_expr(nonlits[m - 1]));
                                        }
                                    }
                                    assert forall|m: int| 1 <= m < out.len() implies !(#[trigger] out[m]
                                        is Number) by {
                                        assert(!(nonlits[m - 1] is Number));
                                    }
                                }
                            },
                        }
                    } else if sign == Sign::Sub {
                        if kids.len() > 0 {
                            lemma_sub_split_sfixed(kids, 1, spec_rat_zero());
                            lemma_sfixed_all_pointwise(kids, 0);
                            match spec_sub_split(kids, 1, spec_rat_zero()) {
                                Err(_) => {},
                                Ok((nonlits, total)) => {
                                    lemma_sfixed_all_pointwise(nonlits, 0);
                                    lemma_no_number_pointwise(nonlits, 0, nonlits.len() as int);
                                    match kids[0] {
                                        AstV::Number(r0) => {
                                            match r0.spec_sub(total) {
                                                Option::None => {},
                                                Option::Some(folded) => {
                                                    if nonlits.len() != 0 {
                                                        let out = seq![AstV::Number(folded)]
                                                            + nonlits;
                                                        lemma_sfixed_all_pointwise(out, 0);
                                                        lemma_no_number_pointwise(
                                                            out,
                                                            1,
                                                            out.len() as int,
                                                        );
                                                        assert forall|m: int|
                                                            0 <= m < out.len() implies #[trigger] sfixed(
                                                            out[m],
                                                        ) by {
                                                            if m > 0 {
                                                                assert(sfixed(nonlits[m - 1]));
                                                            }
                                                        }
                                                        assert forall|m: int|
                                                            1 <= m < out.len() implies !(
                                                        #[trigger] out[m] is Number) by {
                                                            assert(!(nonlits[m - 1] is Number));
                                                        }
                                                    }
                                                },
                                            }
                                        },
                                        _ => {
                                            let tail: Seq<AstV> = if total.spec_is_zero() {
                                                Seq::empty()
                                            } else {
                                                seq![AstV::Number(total)]
                                            };
                                            let out = seq![kids[0]] + nonlits + tail;
                                            lemma_sfixed_all_pointwise(out, 0);
                                            assert forall|m: int|
                                                0 <= m < out.len() implies #[trigger] sfixed(
                                                out[m],
                                            ) by {
                                                if m == 0 {
                                                    assert(sfixed(kids[0]));
                                                } else if m < 1 + nonlits.len() {
                                                    assert(sfixed(nonlits[m - 1]));
                                                } else {
                                                    assert(out[m] == AstV::Number(total));
                                                }
                                            }
                                            if out.len() >= 2 {
                                                if tail.len() == 1 {
                                                    assert(out[out.len() - 1] == AstV::Number(
                                                        total,
                                                    ));
                                                    lemma_no_number_pointwise(
                                                        out,
                                                        1,
                                                        out.len() as int - 1,
                                                    );
                                                    assert forall|m: int|
                                                        1 <= m < out.len() - 1 implies !(
                                                    #[trigger] out[m] is Number) by {
                                                        assert(!(nonlits[m - 1] is Number));
                                                    }
                                                } else {
                                                    lemma_no_number_pointwise(
                                                        out,
                                                        1,
                                                        out.len() as int,
                                                    );
                                                    assert forall|m: int|
                                                        1 <= m < out.len() implies !(#[trigger] out[m]
                                                        is Number) by {
                                                        assert(!(nonlits[m - 1] is Number));
                                                    }
                                                    assert(sub_shape(out));
                                                }
                                            }
                                        },
                                    }
                                },
                            }
                        }
                    } else {
                        lemma_sfixed_all_pointwise(kids, 0);
                    }
                },
            }
        },
        AstV::Term { sign, children } => {
            lemma_expand_children_sfixed(children, 0);
            match spec_expand_children(children, 0) {
                Err(_) => {},
                Ok(kids) => {
                    if sign == Sign::Mul {
                        lemma_flat_mul_sfixed(kids, 0, crate::rat::spec_rat_one());
                        match spec_flat_mul(kids, 0, crate::rat::spec_rat_one()) {
                            Err(_) => {},
                            Ok((nonlits, prod)) => {
                                lemma_sfixed_all_pointwise(nonlits, 0);
                                lemma_no_number_pointwise(nonlits, 0, nonlits.len() as int);
                                lemma_has_mul_pointwise(nonlits, 0);
                                if nonlits.len() != 0 && !prod.spec_is_one() {
                                    let out = nonlits + seq![AstV::Number(prod)];
                                    lemma_sfixed_all_pointwise(out, 0);
                                    lemma_no_number_pointwise(out, 0, out.len() as int - 1);
                                    lemma_has_mul_pointwise(out, 0);
                                    assert forall|m: int| 0 <= m < out.len() implies #[trigger] sfixed(
                                        out[m],
                                    ) && !spec_is_mul_term(out[m]) by {
                                        if m < nonlits.len() {
                                            assert(sfixed(nonlits[m]));
                                            assert(!spec_is_mul_term(nonlits[m]));
                                        } else {
                                            assert(out[m] == AstV::Number(prod));
                                        }
                                    }
                                    assert forall|m: int|
                                        0 <= m < out.len() - 1 implies !(#[trigger] out[m]
                                        is Number) by {
                                        assert(!(nonlits[m] is Number));
                                    }
                                    assert(out[out.len() - 1] == AstV::Number(prod));
                                }
                            },
                        }
                    } else {
                        lemma_sfixed_all_pointwise(kids, 0);
                    }
                },
            }
        },
        AstV::Index { sign, base, exponent } => {
            lemma_expand_sfixed(*base);
            lemma_expand_sfixed(*exponent);
        },
        AstV::Call { name, args } => {
            if args.len() > 0 {
                lemma_expand_sfixed(args[0]);
                match spec_expand(args[0]) {
                    Err(_) => {},
                    Ok(a0) => {
                        lemma_sfixed_all_pointwise(seq![a0], 0);
                    },
                }
            }
        },
        AstV::Identity(members) => {
            lemma_expand_children_sfixed(members, 0);
            match spec_expand_children(members, 0) {
                Err(_) => {},
                Ok(ms) => {
                    lemma_sfixed_all_pointwise(ms, 0);
                },
            }
        },
        AstV::Statement { body, command } => {
            lemma_expand_sfixed(*body);
        },
        _ => {},
    }
}

/// Every expanded child is a fixed point.
proof fn lemma_expand_children_sfixed(children: Seq<AstV>, i: int)
    requires
        0 <= i,
    ensures
        ({
            match spec_expand_children(children, i) {
                Ok(out) => sfixed_all(out, 0),
                Err(_) => true,
            }
        }),
    decreases children, children.len() - i,
{
    if 0 <= i < children.len() {
        lemma_expand_sfixed(children[i]);
        match spec_expand(children[i]) {
            Err(_) => {},
            Ok(c) => {
                lemma_expand_children_sfixed(children, i + 1);
                match spec_expand_children(children, i + 1) {
                    Err(_) => {},
                    Ok(rest) => {
                        let out = seq![c] + rest;
                        lemma_sfixed_all_pointwise(rest, 0);
                        lemma_sfixed_all_pointwise(out, 0);
                        assert forall|m: int| 0 <= m < out.len() implies #[trigger] sfixed(out[m]) by {
                            if m > 0 {
                                assert(sfixed(rest[m - 1]));
                            }
                        }
                    },
                }
            },
        }
    }
}


/// Adding a rational to zero gives it back, representation included.
proof fn lemma_add_zero(r: Rat)
    ensures
        spec_rat_zero().spec_add(r) == Option::Some(r),
{
    assert(0 * r.den == 0);
    assert(r.num * 1 == r.num);
    assert(1 * r.den == r.den);
}

/// Subtracting zero gives the value back, representation included.
proof fn lemma_sub_zero(r: Rat)
    ensures
        r.spec_sub(spec_rat_zero()) == Option::Some(r),
{
    assert(r.num * 1 == r.num);
    assert(0 * r.den == 0);
    assert(r.den * 1 == r.den);
}

/// Multiplying one by a rational gives it back, representation
/// included.
proof fn lemma_mul_one(p: Rat)
    ensures
        crate::rat::spec_rat_one().spec_mul(p) == Option::Some(p),
{
    assert(1 * p.num == p.num);
    assert(1 * p.den == p.den);
}

/// Folding a literal-free, `+`-chain-free suffix keeps it unchanged.
proof fn lemma_flat_add_id(children: Seq<AstV>, i: int, sum: Rat)
    requires
        0 <= i <= children.len(),
        no_number_range(children, i, children.len() as int),
        !has_add_child(children, i),
    ensures
        spec_flat_add(children, i, sum) == Ok::<_, NumError>(
            (children.subrange(i, children.len() as int), sum),
        ),
    decreases children.len() - i,
{
    if i >= children.len() {
        assert(children.subrange(i, children.len() as int) =~= Seq::<AstV>::empty());
    } else {
        lemma_flat_add_id(children, i + 1, sum);
        assert(seq![children[i]] + children.subrange(i + 1, children.len() as int)
            =~= children.subrange(i, children.len() as int));
    }
}

/// Splitting a literal-free suffix of a `-` chain keeps it unchanged.
proof fn lemma_sub_split_id_plain(children: Seq<AstV>, i: int, t: Rat)
    requires
        0 <= i <= children.len(),
        no_number_range(children, i, children.len() as int),
    ensures
        spec_sub_split(children, i, t) == Ok::<_, NumError>(
            (children.subrange(i, children.len() as int), t),
        ),
    decreases children.len() - i,
{
    if i >= children.len() {
        assert(children.subrange(i, children.len() as int) =~= Seq::<AstV>::empty());
    } else {
        lemma_sub_split_id_plain(children, i + 1, t);
        assert(seq![children[i]] + children.subrange(i + 1, children.len() as int)
            =~= children.subrange(i, children.len() as int));
    }
}

/// Splitting a `-` tail that ends in one literal folds exactly that
/// literal and keeps the rest.
proof fn lemma_sub_split_id_tail(children: Seq<AstV>, i: int, t: Rat)
    requires
        0 <= i <= children.len() - 1,
        no_number_range(children, i, children.len() as int - 1),
        children[children.len() - 1] is Number,
    ensures
        ({
            let l = children[children.len() - 1]->Number_0;
            match t.spec_add(l) {
                Option::None => spec_sub_split(children, i, t) == Err::<(Seq<AstV>, Rat), _>(
                    NumError::Overflow,
                ),
                Option::Some(t2) => spec_sub_split(children, i, t) == Ok::<_, NumError>(
                    (children.subrange(i, children.len() as int - 1), t2),
                ),
            }
        }),
    decreases children.len() - i,
{
    let l = children[children.len() - 1]->Number_0;
    if i == children.len() - 1 {
        match t.spec_add(l) {
            Option::None => {},
            Option::Some(t2) => {
                assert(spec_sub_split(children, i + 1, t2) == Ok::<_, NumError>(
                    (Seq::<AstV>::empty(), t2),
                ));
                assert(children.subrange(i, children.len() as int - 1) =~= Seq::<AstV>::empty());
            },
        }
    } else {
        lemma_sub_split_id_tail(children, i + 1, t);
        match t.spec_add(l) {
            Option::None => {},
            Option::Some(t2) => {
                assert(seq![children[i]] + children.subrange(i + 1, children.len() as int - 1)
                    =~= children.subrange(i, children.len() as int - 1));
            },
        }
    }
}

/// Folding a literal-free, `*`-chain-free suffix keeps it unchanged.
proof fn lemma_flat_mul_id(children: Seq<AstV>, i: int, prod: Rat)
    requires
        0 <= i <= children.len(),
        no_number_range(children, i, children.len() as int),
        !has_mul_child(children, i),
    ensures
        spec_flat_mul(children, i, prod) == Ok::<_, NumError>(
            (children.subrange(i, children.len() as int), prod),
        ),
    decreases children.len() - i,
{
    if i >= children.len() {
        assert(children.subrange(i, children.len() as int) =~= Seq::<AstV>::empty());
    } else {
        lemma_flat_mul_id(children, i + 1, prod);
        assert(seq![children[i]] + children.subrange(i + 1, children.len() as int)
            =~= children.subrange(i, children.len() as int));
    }
}

/// Folding a `*` chain that ends in one literal folds exactly that
/// literal and keeps the rest.
proof fn lemma_flat_mul_id_tail(children: Seq<AstV>, i: int, prod: Rat)
    requires
        0 <= i <= children.len() - 1,
        no_number_range(children, i, children.len() as int - 1),
        !has_mul_child(children, i),
        children[children.len() - 1] is Number,
        !spec_is_mul_term(children[children.len() - 1]),
    ensures
        ({
            let p = children[children.len() - 1]->Number_0;
            match prod.spec_mul(p) {
                Option::None => spec_flat_mul(children, i, prod) == Err::<(Seq<AstV>, Rat), _>(
                    NumError::Overflow,
                ),
                Option::Some(p2) => spec_flat_mul(children, i, prod) == Ok::<_, NumError>(
                    (children.subrange(i, children.len() as int - 1), p2),
                ),
            }
        }),
    decreases children.len() - i,
{
    let p = children[children.len() - 1]->Number_0;
    if i == children.len() - 1 {
        match prod.spec_mul(p) {
            Option::None => {},
            Option::Some(p2) => {
                assert(spec_flat_mul(children, i + 1, p2) == Ok::<_, NumError>(
                    (Seq::<AstV>::empty(), p2),
                ));
                assert(children.subrange(i, children.len() as int - 1) =~= Seq::<AstV>::empty());
            },
        }
    } else {
        lemma_flat_mul_id_tail(children, i + 1, prod);
        match prod.spec_mul(p) {
            Option::None => {},
            Option::Some(p2) => {
                assert(seq![children[i]] + children.subrange(i + 1, children.len() as int - 1)
                    =~= children.subrange(i, children.len() as int - 1));
            },
        }
    }
}

/// A canonical fixed shape re-expands to itself.
proof fn lemma_sfixed_expand_id(a: AstV)
    requires
        sfixed(a),
    ensures
        spec_expand(a) == Ok::<AstV, NumError>(a),
    decreases a, 1int,
{
    match a {
        AstV::Unary { sign, operand } => {
            lemma_sfixed_expand_id(*operand);
        },
        AstV::Expr { sign, children } => {
            lemma_expand_children_id(children, 0);
            assert(children.subrange(0, children.len() as int) =~= children);
            let n = children.len() as int;
            if sign == Sign::Add {
                lemma_no_number_pointwise(children, 0, n);
                lemma_no_number_pointwise(children, 1, n);
                lemma_has_add_pointwise(children, 0);
                lemma_has_add_pointwise(children, 1);
                match children[0] {
                    AstV::Number(r) => {
                        lemma_add_zero(r);
                        lemma_flat_add_id(children, 1, r);
                        assert(seq![AstV::Number(r)] + children.subrange(1, n) =~= children);
                    },
                    _ => {
                        lemma_flat_add_id(children, 0, spec_rat_zero());
                    },
                }
            } else if sign == Sign::Sub {
                lemma_no_number_pointwise(children, 1, n);
                lemma_no_number_pointwise(children, 1, n - 1);
                match children[0] {
                    AstV::Number(r0) => {
                        lemma_sub_split_id_plain(children, 1, spec_rat_zero());
                        lemma_sub_zero(r0);
                        assert(seq![AstV::Number(r0)] + children.subrange(1, n) =~= children);
                    },
                    _ => {
                        match children[n - 1] {
                            AstV::Number(l) => {
                                lemma_add_zero(l);
                                lemma_sub_split_id_tail(children, 1, spec_rat_zero());
                                assert(seq![children[0]] + children.subrange(1, n - 1) + seq![
                                    AstV::Number(l),
                                ] =~= children);
                            },
                            _ => {
                                lemma_sub_split_id_plain(children, 1, spec_rat_zero());
                                assert(seq![children[0]] + children.subrange(1, n)
                                    + Seq::<AstV>::empty() =~= children);
                            },
                        }
                    },
                }
            }
        },
        AstV::Term { sign, children } => {
            lemma_expand_children_id(children, 0);
            assert(children.subrange(0, children.len() as int) =~= children);
            let n = children.len() as int;
            if sign == Sign::Mul {
                lemma_no_number_pointwise(children, 0, n);
                lemma_no_number_pointwise(children, 0, n - 1);
                lemma_has_mul_pointwise(children, 0);
                match children[n - 1] {
                    AstV::Number(p) => {
                        lemma_mul_one(p);
                        lemma_flat_mul_id_tail(children, 0, crate::rat::spec_rat_one());
                        assert(children.subrange(0, n - 1) + seq![AstV::Number(p)] =~= children);
                    },
                    _ => {
                        lemma_flat_mul_id(children, 0, crate::rat::spec_rat_one());
                    },
                }
            }
        },
        AstV::Index { sign, base, exponent } => {
            lemma_sfixed_expand_id(*base);
            lemma_sfixed_expand_id(*exponent);
        },
        AstV::Call { name, args } => {
            if args.len() > 0 {
                lemma_sfixed_expand_id(args[0]);
                assert(seq![args[0]] =~= args);
            }
        },
        AstV::Identity(members) => {
            lemma_expand_children_id(members, 0);
            assert(members.subrange(0, members.len() as int) =~= members);
        },
        _ => {},
    }
}

/// Expanding a suffix of fixed shapes keeps it unchanged.
proof fn lemma_expand_children_id(s: Seq<AstV>, i: int)
    requires
        0 <= i <= s.len(),
        sfixed_all(s, i),
    ensures
        spec_expand_children(s, i) == Ok::<Seq<AstV>, NumError>(s.subrange(i, s.len() as int)),
    decreases s, s.len() - i,
{
    if i >= s.len() {
        assert(s.subrange(i, s.len() as int) =~= Seq::<AstV>::empty());
    } else {
        lemma_sfixed_expand_id(s[i]);
        lemma_expand_children_id(s, i + 1);
        assert(seq![s[i]] + s.subrange(i + 1, s.len() as int) =~= s.subrange(i, s.len() as int));
    }
}

/// Idempotence: a second expansion returns the first expansion's tree
/// unchanged, structurally.
pub proof fn lemma_expand_idempotent(a: AstV)
    ensures
        spec_expand(a) is Ok ==> spec_expand(spec_expand(a)->Ok_0) == spec_expand(a),
{
    if spec_expand(a) is Ok {
        lemma_expand_sfixed(a);
        lemma_sfixed_expand_id(spec_expand(a)->Ok_0);
    }
}

} // verus!

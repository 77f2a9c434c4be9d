//! Multi-branch numeric evaluator.
//!
//! Evaluation maps a tree and a value for the free variable `x` to an
//! ordered sequence of exact rational results, one entry per `+-`
//! branch, discovered left-to-right and outside-in. Anything that has
//! no exact rational value — an unknown variable or call name, a
//! division by zero, an overflowing component, an irrational root or a
//! transcendental value — is reported as a typed error for the current
//! statement instead of a machine approximation.

use crate::ast::{all_wf, lemma_all_wf_pointwise, lemma_models_index, models, AstV, Sign, AST};
use crate::rat::{NumError, Rat};
use vstd::prelude::*;

verus! {

/// Why evaluation of a statement stopped.
#[derive(Debug, Clone, PartialEq, Eq)]
pub enum EvalError {
    /// A variable other than the free variable `x` was read.
    UnknownVariable(String),
    /// A call to a name outside the supported function list.
    UnknownCall(String),
    /// Exact rational arithmetic failed.
    Numeric(NumError),
}

/// The model of an evaluation error, with names as character sequences.
pub enum EvalErrorV {
    UnknownVariable(Seq<char>),
    UnknownCall(Seq<char>),
    Numeric(NumError),
}

impl EvalError {
    /// The model of this error.
    pub open spec fn model(self) -> EvalErrorV {
        match self {
            EvalError::UnknownVariable(v) => EvalErrorV::UnknownVariable(v@),
            EvalError::UnknownCall(v) => EvalErrorV::UnknownCall(v@),
            EvalError::Numeric(e) => EvalErrorV::Numeric(e),
        }
    }
}

/// Every rational of the sequence is well-formed.
pub open spec fn all_rats_wf(s: Seq<Rat>) -> bool {
    forall|i: int| 0 <= i < s.len() ==> #[trigger] s[i].wf()
}

/// The branches of `a sign b`: one value, or two for `+-`.
pub open spec fn spec_pair(sign: Sign, a: Rat, b: Rat) -> Result<Seq<Rat>, NumError> {
    match sign {
        Sign::Add => match a.spec_add(b) {
            Option::Some(v) => Ok(seq![v]),
            Option::None => Err(NumError::Overflow),
        },
        Sign::Sub => match a.spec_sub(b) {
            Option::Some(v) => Ok(seq![v]),
            Option::None => Err(NumError::Overflow),
        },
        Sign::AddSub => match (a.spec_add(b), a.spec_sub(b)) {
            (Option::Some(u), Option::Some(v)) => Ok(seq![u, v]),
            _ => Err(NumError::Overflow),
        },
        Sign::Mul => match a.spec_mul(b) {
            Option::Some(v) => Ok(seq![v]),
            Option::None => Err(NumError::Overflow),
        },
        Sign::Div => match a.spec_div(b) {
            Ok(v) => Ok(seq![v]),
            Err(e) => Err(e),
        },
        Sign::Pow => match a.spec_pow(b) {
            Ok(v) => Ok(seq![v]),
            Err(e) => Err(e),
        },
    }
}

/// One accumulator branch combined with every branch of the next child,
/// from index `k` on.
pub open spec fn spec_row(sign: Sign, a: Rat, ws: Seq<Rat>, k: int) -> Result<Seq<Rat>, NumError>
    decreases ws.len() - k,
{
    if k < 0 || k >= ws.len() {
        Ok(Seq::empty())
    } else {
        match spec_pair(sign, a, ws[k]) {
            Err(e) => Err(e),
            Ok(p) => match spec_row(sign, a, ws, k + 1) {
                Err(e) => Err(e),
                Ok(r) => Ok(p + r),
            },
        }
    }
}

/// Every accumulator branch from index `k` on, each combined with every
/// branch of the next child: the full cartesian step.
pub open spec fn spec_rows(sign: Sign, acc: Seq<Rat>, ws: Seq<Rat>, k: int) -> Result<
    Seq<Rat>,
    NumError,
>
    decreases acc.len() - k,
{
    if k < 0 || k >= acc.len() {
        Ok(Seq::empty())
    } else {
        match spec_row(sign, acc[k], ws, 0) {
            Err(e) => Err(e),
            Ok(p) => match spec_rows(sign, acc, ws, k + 1) {
                Err(e) => Err(e),
                Ok(r) => Ok(p + r),
            },
        }
    }
}

/// The branches a unary sign makes from one operand branch.
pub open spec fn spec_unary_pair(sign: Sign, v: Rat) -> Result<Seq<Rat>, NumError> {
    match sign {
        Sign::Add => Ok(seq![v]),
        Sign::Sub => match v.spec_neg() {
            Option::Some(n) => Ok(seq![n]),
            Option::None => Err(NumError::Overflow),
        },
        Sign::AddSub => match v.spec_neg() {
            Option::Some(n) => Ok(seq![v, n]),
            Option::None => Err(NumError::Overflow),
        },
        _ => Ok(seq![v]),
    }
}

/// A unary sign applied to every operand branch from index `k` on.
pub open spec fn spec_map_unary(sign: Sign, vs: Seq<Rat>, k: int) -> Result<Seq<Rat>, NumError>
    decreases vs.len() - k,
{
    if k < 0 || k >= vs.len() {
        Ok(Seq::empty())
    } else {
        match spec_unary_pair(sign, vs[k]) {
            Err(e) => Err(e),
            Ok(p) => match spec_map_unary(sign, vs, k + 1) {
                Err(e) => Err(e),
                Ok(r) => Ok(p + r),
            },
        }
    }
}

/// The call names the evaluator dispatches on.
pub open spec fn spec_known_call(name: Seq<char>) -> bool {
    ||| name == "sqrt"@
    ||| name == "sin"@
    ||| name == "cos"@
    ||| name == "tan"@
    ||| name == "asin"@
    ||| name == "acos"@
    ||| name == "atan"@
    ||| name == "ln"@
}

/// One supported call applied to one branch. Only exactly representable
/// results exist: `sqrt` of a perfect square, and the rational special
/// values of the transcendental functions (`sin`/`tan`/`asin`/`atan` at
/// zero, `cos` at zero, `acos`/`ln` at one); everything else is
/// `Inexact`.
pub open spec fn spec_apply_call(name: Seq<char>, v: Rat) -> Result<Rat, NumError> {
    if name == "sqrt"@ {
        v.spec_sqrt()
    } else if name == "sin"@ || name == "tan"@ || name == "asin"@ || name == "atan"@ {
        if v.spec_is_zero() {
            Ok(Rat { num: 0, den: 1 })
        } else {
            Err(NumError::Inexact)
        }
    } else if name == "cos"@ {
        if v.spec_is_zero() {
            Ok(Rat { num: 1, den: 1 })
        } else {
            Err(NumError::Inexact)
        }
    } else if name == "acos"@ || name == "ln"@ {
        if v.spec_is_one() {
            Ok(Rat { num: 0, den: 1 })
        } else {
            Err(NumError::Inexact)
        }
    } else {
        Err(NumError::Inexact)
    }
}

/// A supported call applied to every argument branch from index `k` on.
pub open spec fn spec_map_call(name: Seq<char>, vs: Seq<Rat>, k: int) -> Result<Seq<Rat>, NumError>
    decreases vs.len() - k,
{
    if k < 0 || k >= vs.len() {
        Ok(Seq::empty())
    } else {
        match spec_apply_call(name, vs[k]) {
            Err(e) => Err(e),
            Ok(p) => match spec_map_call(name, vs, k + 1) {
                Err(e) => Err(e),
                Ok(r) => Ok(seq![p] + r),
            },
        }
    }
}

/// The evaluator itself, as a mathematical function of the tree model.
pub open spec fn spec_eval(a: AstV, x: Rat) -> Result<Seq<Rat>, EvalErrorV>
    decreases a, 0int,
{
    match a {
        AstV::Number(n) => Ok(seq![n]),
        AstV::Variable(v) => if v == "x"@ {
            Ok(seq![x])
        } else {
            Err(EvalErrorV::UnknownVariable(v))
        },
        AstV::Unary { sign, operand } => match spec_eval(*operand, x) {
            Err(e) => Err(e),
            Ok(vs) => match spec_map_unary(sign, vs, 0) {
                Err(e) => Err(EvalErrorV::Numeric(e)),
                Ok(r) => Ok(r),
            },
        },
        AstV::Expr { sign, children } => if children.len() == 0 {
            Ok(Seq::empty())
        } else {
            match spec_eval(children[0], x) {
                Err(err) => Err(err),
                Ok(first) => spec_eval_chain(sign, first, children, 1, x),
            }
        },
        AstV::Term { sign, children } => if children.len() == 0 {
            Ok(Seq::empty())
        } else {
            match spec_eval(children[0], x) {
                Err(err) => Err(err),
                Ok(first) => spec_eval_chain(sign, first, children, 1, x),
            }
        },
        AstV::Index { sign, base, exponent } => match spec_eval(*base, x) {
            Err(e) => Err(e),
            Ok(bs) => match spec_eval(*exponent, x) {
                Err(e) => Err(e),
                Ok(es) => match spec_rows(Sign::Pow, bs, es, 0) {
                    Err(e) => Err(EvalErrorV::Numeric(e)),
                    Ok(r) => Ok(r),
                },
            },
        },
        AstV::Identity(members) => if members.len() < 2 {
            Ok(Seq::empty())
        } else {
            spec_eval(members[1], x)
        },
        AstV::Statement { body, command } => spec_eval(*body, x),
        AstV::Call { name, args } => if !spec_known_call(name) {
            Err(EvalErrorV::UnknownCall(name))
        } else if args.len() == 0 {
            Ok(Seq::empty())
        } else {
            match spec_eval(args[0], x) {
                Err(e) => Err(e),
                Ok(vs) => match spec_map_call(name, vs, 0) {
                    Err(e) => Err(EvalErrorV::Numeric(e)),
                    Ok(r) => Ok(r),
                },
            }
        },
    }
}

/// Folds the children from index `i` on into the accumulated branch
/// set, one cartesian step per child.
pub open spec fn spec_eval_chain(
    sign: Sign,
    acc: Seq<Rat>,
    children: Seq<AstV>,
    i: int,
    x: Rat,
) -> Result<Seq<Rat>, EvalErrorV>
    decreases children, children.len() - i,
{
    if i < 0 || i >= children.len() {
        Ok(acc)
    } else {
        match spec_eval(children[i], x) {
            Err(e) => Err(e),
            Ok(ws) => match spec_rows(sign, acc, ws, 0) {
                Err(e) => Err(EvalErrorV::Numeric(e)),
                Ok(acc2) => spec_eval_chain(sign, acc2, children, i + 1, x),
            },
        }
    }
}

/// Does this `String` hold exactly this literal?
pub fn name_is(n: &String, lit: &str) -> (r: bool)
    ensures
        r == (n@ == lit@),
{
    n.eq(&lit.to_owned())
}

fn pair(sign: Sign, a: Rat, b: Rat) -> (r: Result<Vec<Rat>, NumError>)
    requires
        a.wf(),
        b.wf(),
    ensures
        ({
            let m = spec_pair(sign, a, b);
            match r {
                Ok(v) => m is Ok && v@ == m->Ok_0 && all_rats_wf(v@),
                Err(e) => m == Result::<Seq<Rat>, NumError>::Err(e),
            }
        }),
{
    match sign {
        Sign::Add => match a.checked_add(b) {
            Option::Some(v) => Ok(vec![v]),
            Option::None => Err(NumError::Overflow),
        },
        Sign::Sub => match a.checked_sub(b) {
            Option::Some(v) => Ok(vec![v]),
            Option::None => Err(NumError::Overflow),
        },
        Sign::AddSub => match (a.checked_add(b), a.checked_sub(b)) {
            (Option::Some(u), Option::Some(v)) => Ok(vec![u, v]),
            _ => Err(NumError::Overflow),
        },
        Sign::Mul => match a.checked_mul(b) {
            Option::Some(v) => Ok(vec![v]),
            Option::None => Err(NumError::Overflow),
        },
        Sign::Div => match a.checked_div(b) {
            Ok(v) => Ok(vec![v]),
            Err(e) => Err(e),
        },
        Sign::Pow => match a.checked_pow(b) {
            Ok(v) => Ok(vec![v]),
            Err(e) => Err(e),
        },
    }
}

fn row(sign: Sign, a: Rat, ws: &Vec<Rat>, k: usize) -> (r: Result<Vec<Rat>, NumError>)
    requires
        a.wf(),
        all_rats_wf(ws@),
    ensures
        ({
            let m = spec_row(sign, a, ws@, k as int);
            match r {
                Ok(v) => m is Ok && v@ == m->Ok_0 && all_rats_wf(v@),
                Err(e) => m == Result::<Seq<Rat>, NumError>::Err(e),
            }
        }),
    decreases ws@.len() - k,
{
    if k >= ws.len() {
        return Ok(Vec::new());
    }
    let p = match pair(sign, a, ws[k]) {
        Err(e) => {
            return Err(e);
        },
        Ok(p) => p,
    };
    let mut rest = match row(sign, a, ws, k + 1) {
        Err(e) => {
            return Err(e);
        },
        Ok(r) => r,
    };
    let mut out = p;
    out.append(&mut rest);
    Ok(out)
}

fn rows(sign: Sign, acc: &Vec<Rat>, ws: &Vec<Rat>, k: usize) -> (r: Result<Vec<Rat>, NumError>)
    requires
        all_rats_wf(acc@),
        all_rats_wf(ws@),
    ensures
        ({
            let m = spec_rows(sign, acc@, ws@, k as int);
            match r {
                Ok(v) => m is Ok && v@ == m->Ok_0 && all_rats_wf(v@),
                Err(e) => m == Result::<Seq<Rat>, NumError>::Err(e),
            }
        }),
    decreases acc@.len() - k,
{
    if k >= acc.len() {
        return Ok(Vec::new());
    }
    let p = match row(sign, acc[k], ws, 0) {
        Err(e) => {
            return Err(e);
        },
        Ok(p) => p,
    };
    let mut rest = match rows(sign, acc, ws, k + 1) {
        Err(e) => {
            return Err(e);
        },
        Ok(r) => r,
    };
    let mut out = p;
    out.append(&mut rest);
    Ok(out)
}

fn map_unary(sign: Sign, vs: &Vec<Rat>, k: usize) -> (r: Result<Vec<Rat>, NumError>)
    requires
        all_rats_wf(vs@),
    ensures
        ({
            let m = spec_map_unary(sign, vs@, k as int);
            match r {
                Ok(v) => m is Ok && v@ == m->Ok_0 && all_rats_wf(v@),
                Err(e) => m == Result::<Seq<Rat>, NumError>::Err(e),
            }
        }),
    decreases vs@.len() - k,
{
    if k >= vs.len() {
        return Ok(Vec::new());
    }
    let p: Vec<Rat> = match sign {
        Sign::Sub => match vs[k].checked_neg() {
            Option::Some(n) => vec![n],
            Option::None => {
                return Err(NumError::Overflow);
            },
        },
        Sign::AddSub => match vs[k].checked_neg() {
            Option::Some(n) => vec![vs[k], n],
            Option::None => {
                return Err(NumError::Overflow);
            },
        },
        _ => vec![vs[k]],
    };
    let mut rest = match map_unary(sign, vs, k + 1) {
        Err(e) => {
            return Err(e);
        },
        Ok(r) => r,
    };
    let mut out = p;
    out.append(&mut rest);
    Ok(out)
}

/// Decides membership in the supported call-name list.
pub fn is_known_call(n: &String) -> (r: bool)
    ensures
        r == spec_known_call(n@),
{
    name_is(n, "sqrt") || name_is(n, "sin") || name_is(n, "cos") || name_is(n, "tan") || name_is(
        n,
        "asin",
    ) || name_is(n, "acos") || name_is(n, "atan") || name_is(n, "ln")
}

/// One supported call applied to one branch, exactly.
pub fn apply_call(name: &String, v: Rat) -> (r: Result<Rat, NumError>)
    requires
        v.wf(),
    ensures
        r == spec_apply_call(name@, v),
        r is Ok ==> r->Ok_0.wf(),
{
    if name_is(name, "sqrt") {
        v.checked_sqrt()
    } else if name_is(name, "sin") || name_is(name, "tan") || name_is(name, "asin") || name_is(
        name,
        "atan",
    ) {
        if v.is_zero() {
            Ok(Rat { num: 0, den: 1 })
        } else {
            Err(NumError::Inexact)
        }
    } else if name_is(name, "cos") {
        if v.is_zero() {
            Ok(Rat { num: 1, den: 1 })
        } else {
            Err(NumError::Inexact)
        }
    } else if name_is(name, "acos") || name_is(name, "ln") {
        if v.is_one() {
            Ok(Rat { num: 0, den: 1 })
        } else {
            Err(NumError::Inexact)
        }
    } else {
        Err(NumError::Inexact)
    }
}

fn map_call(name: &String, vs: &Vec<Rat>, k: usize) -> (r: Result<Vec<Rat>, NumError>)
    requires
        all_rats_wf(vs@),
    ensures
        ({
            let m = spec_map_call(name@, vs@, k as int);
            match r {
                Ok(v) => m is Ok && v@ == m->Ok_0 && all_rats_wf(v@),
                Err(e) => m == Result::<Seq<Rat>, NumError>::Err(e),
            }
        }),
    decreases vs@.len() - k,
{
    if k >= vs.len() {
        return Ok(Vec::new());
    }
    let p = match apply_call(name, vs[k]) {
        Err(e) => {
            return Err(e);
        },
        Ok(p) => p,
    };
    let mut rest = match map_call(name, vs, k + 1) {
        Err(e) => {
            return Err(e);
        },
        Ok(r) => r,
    };
    let mut out = vec![p];
    out.append(&mut rest);
    Ok(out)
}

/// Evaluates a well-formed tree at `x`, returning the ordered branch
/// results exactly as `spec_eval` describes them.
pub fn eval(expr: &AST, x: Rat) -> (r: Result<Vec<Rat>, EvalError>)
    requires
        expr.wf(),
        x.wf(),
    ensures
        ({
            let m = spec_eval(expr.model(), x);
            match r {
                Ok(v) => m is Ok && v@ == m->Ok_0 && all_rats_wf(v@),
                Err(e) => m is Err && m->Err_0 == e.model(),
            }
        }),
    decreases expr, 0int,
{
    match expr {
        AST::Number(n) => Ok(vec![*n]),
        AST::Variable(v) => if name_is(v, "x") {
            Ok(vec![x])
        } else {
            Err(EvalError::UnknownVariable(v.clone()))
        },
        AST::Unary(u) => {
            let vs = match eval(&u.unary, x) {
                Err(e) => {
                    return Err(e);
                },
                Ok(vs) => vs,
            };
            match map_unary(u.sign, &vs, 0) {
                Err(e) => Err(EvalError::Numeric(e)),
                Ok(r) => Ok(r),
            }
        },
        AST::Expr(e) => {
            proof {
                lemma_all_wf_pointwise(e.expr@);
                lemma_models_index(e.expr@, 0);
            }
            let first = match eval(&e.expr[0], x) {
                Err(err) => {
                    return Err(err);
                },
                Ok(v) => v,
            };
            eval_chain(e.sign, first, &e.expr, 1, x)
        },
        AST::Term(t) => {
            proof {
                lemma_all_wf_pointwise(t.term@);
                lemma_models_index(t.term@, 0);
            }
            let first = match eval(&t.term[0], x) {
                Err(err) => {
                    return Err(err);
                },
                Ok(v) => v,
            };
            eval_chain(t.sign, first, &t.term, 1, x)
        },
        AST::Index(i) => {
            let bs = match eval(&i.base, x) {
                Err(e) => {
                    return Err(e);
                },
                Ok(v) => v,
            };
            let es = match eval(&i.exponent, x) {
                Err(e) => {
                    return Err(e);
                },
                Ok(v) => v,
            };
            match rows(Sign::Pow, &bs, &es, 0) {
                Err(e) => Err(EvalError::Numeric(e)),
                Ok(r) => Ok(r),
            }
        },
        AST::Identity(idn) => {
            proof {
                lemma_all_wf_pointwise(idn.identity@);
                lemma_models_index(idn.identity@, 0);
            }
            eval(&idn.identity[1], x)
        },
        AST::Statement(s) => eval(&s.statement, x),
        AST::Call(c) => {
            if !is_known_call(&c.name) {
                return Err(EvalError::UnknownCall(c.name.clone()));
            }
            proof {
                lemma_all_wf_pointwise(c.call@);
                lemma_models_index(c.call@, 0);
            }
            let vs = match eval(&c.call[0], x) {
                Err(e) => {
                    return Err(e);
                },
                Ok(vs) => vs,
            };
            match map_call(&c.name, &vs, 0) {
                Err(e) => Err(EvalError::Numeric(e)),
                Ok(r) => Ok(r),
            }
        },
    }
}

/// Folds the children from index `i` on into the accumulated branches.
fn eval_chain(sign: Sign, acc: Vec<Rat>, children: &Vec<Box<AST>>, i: usize, x: Rat) -> (r: Result<
    Vec<Rat>,
    EvalError,
>)
    requires
        all_wf(children@),
        all_rats_wf(acc@),
        x.wf(),
    ensures
        ({
            let m = spec_eval_chain(sign, acc@, models(children@, 0), i as int, x);
            match r {
                Ok(v) => m is Ok && v@ == m->Ok_0 && all_rats_wf(v@),
                Err(e) => m is Err && m->Err_0 == e.model(),
            }
        }),
    decreases children, children@.len() - i,
{
    proof {
        lemma_models_index(children@, 0);
    }
    if i >= children.len() {
        return Ok(acc);
    }
    proof {
        lemma_all_wf_pointwise(children@);
    }
    let ws = match eval(&children[i], x) {
        Err(e) => {
            return Err(e);
        },
        Ok(w) => w,
    };
    let acc2 = match rows(sign, &acc, &ws, 0) {
        Err(e) => {
            return Err(EvalError::Numeric(e));
        },
        Ok(a) => a,
    };
    eval_chain(sign, acc2, children, i + 1, x)
}

} // verus!

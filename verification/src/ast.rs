//! The algebraic syntax tree.
//!
//! A tagged union with one active variant per node. Aggregating nodes
//! (`Expr`, `Term`) carry one `Sign` that applies uniformly across all
//! children, and always hold at least two children; a would-be singleton
//! collapses to the bare child instead.
//!
//! Every tree has a mathematical model (`AstV`) with `Seq` children and
//! `Seq<char>` names; all contracts in this crate speak of models.

use crate::rat::Rat;
use vstd::prelude::*;

verus! {

/// Operator tag carried by an aggregating node.
#[derive(Clone, Copy, Debug, PartialEq, Eq, Structural)]
pub enum Sign {
    Add,
    Sub,
    AddSub,
    Mul,
    Div,
    Pow,
}

#[derive(Debug)]
pub enum AST {
    Expr(Expr),
    Term(Term),
    Index(Index),
    Unary(Unary),
    Variable(String),
    Number(Rat),
    Call(Call),
    Identity(Identity),
    Statement(Statement),
}

/// Additive chain: children joined by one of `+`, `-`, `+-`.
#[derive(Debug)]
pub struct Expr {
    pub sign: Sign,
    pub expr: Vec<Box<AST>>,
}

/// Multiplicative chain: children joined by `*` or `/`.
#[derive(Debug)]
pub struct Term {
    pub sign: Sign,
    pub term: Vec<Box<AST>>,
}

/// Exponentiation: `base ^ exponent`.
#[derive(Debug)]
pub struct Index {
    pub sign: Sign,
    pub base: Box<AST>,
    pub exponent: Box<AST>,
}

/// A sign applied to a single operand.
#[derive(Debug)]
pub struct Unary {
    pub sign: Sign,
    pub unary: Box<AST>,
}

/// A named function applied to one or more arguments.
#[derive(Debug)]
pub struct Call {
    pub name: String,
    pub call: Vec<Box<AST>>,
}

/// A chain of mutually equal expressions (`a = b = c`).
#[derive(Debug)]
pub struct Identity {
    pub identity: Vec<Box<AST>>,
}

/// A top-level unit: an identity plus an optional trailing command.
#[derive(Debug)]
pub struct Statement {
    pub statement: Box<AST>,
    pub command: Option<String>,
}

/// The mathematical model of a tree: the same shape over `Seq` and
/// `Seq<char>`, free of allocation types.
pub enum AstV {
    Expr { sign: Sign, children: Seq<AstV> },
    Term { sign: Sign, children: Seq<AstV> },
    Index { sign: Sign, base: Box<AstV>, exponent: Box<AstV> },
    Unary { sign: Sign, operand: Box<AstV> },
    Variable(Seq<char>),
    Number(Rat),
    Call { name: Seq<char>, args: Seq<AstV> },
    Identity(Seq<AstV>),
    Statement { body: Box<AstV>, command: Option<Seq<char>> },
}

impl AST {
    /// The model of this tree.
    pub open spec fn model(self) -> AstV
        decreases self, 0int,
    {
        match self {
            AST::Number(r) => AstV::Number(r),
            AST::Variable(v) => AstV::Variable(v@),
            AST::Unary(u) => AstV::Unary { sign: u.sign, operand: Box::new(u.unary.model()) },
            AST::Expr(e) => AstV::Expr { sign: e.sign, children: models(e.expr@, 0) },
            AST::Term(t) => AstV::Term { sign: t.sign, children: models(t.term@, 0) },
            AST::Index(i) => AstV::Index {
                sign: i.sign,
                base: Box::new(i.base.model()),
                exponent: Box::new(i.exponent.model()),
            },
            AST::Call(c) => AstV::Call { name: c.name@, args: models(c.call@, 0) },
            AST::Identity(i) => AstV::Identity(models(i.identity@, 0)),
            AST::Statement(s) => AstV::Statement {
                body: Box::new(s.statement.model()),
                command: match s.command {
                    Option::None => Option::None,
                    Option::Some(c) => Option::Some(c@),
                },
            },
        }
    }
}

/// The models of the children from index `i` on.
pub open spec fn models(s: Seq<Box<AST>>, i: int) -> Seq<AstV>
    decreases s, s.len() - i,
{
    if i < 0 || i >= s.len() {
        Seq::empty()
    } else {
        seq![s[i].model()] + models(s, i + 1)
    }
}

/// `models(s, k)` lists the models of `s[k..]`, in order.
pub proof fn lemma_models_index(s: Seq<Box<AST>>, k: int)
    requires
        0 <= k <= s.len(),
    ensures
        models(s, k).len() == s.len() - k,
        forall|j: int| 0 <= j < s.len() - k ==> #[trigger] models(s, k)[j] == s[k + j].model(),
    decreases s.len() - k,
{
    if k < s.len() {
        lemma_models_index(s, k + 1);
        assert forall|j: int| 0 <= j < s.len() - k implies #[trigger] models(s, k)[j] == s[k
            + j].model() by {
            if j > 0 {
                assert(models(s, k + 1)[j - 1] == s[k + j].model());
            }
        }
    }
}

impl AST {
    /// Structural well-formedness: signs match the node kind, and every
    /// aggregate holds enough children.
    pub open spec fn wf(self) -> bool
        decreases self,
    {
        match self {
            AST::Number(r) => r.wf(),
            AST::Variable(_) => true,
            AST::Unary(u) => (u.sign == Sign::Add || u.sign == Sign::Sub || u.sign == Sign::AddSub)
                && u.unary.wf(),
            AST::Expr(e) => (e.sign == Sign::Add || e.sign == Sign::Sub || e.sign == Sign::AddSub)
                && e.expr.len() >= 2 && all_wf(e.expr@),
            AST::Term(t) => (t.sign == Sign::Mul || t.sign == Sign::Div) && t.term.len() >= 2
                && all_wf(t.term@),
            AST::Index(i) => i.sign == Sign::Pow && i.base.wf() && i.exponent.wf(),
            AST::Call(c) => c.call.len() >= 1 && all_wf(c.call@),
            AST::Identity(i) => i.identity.len() >= 2 && all_wf(i.identity@),
            AST::Statement(s) => (*s.statement) is Identity && s.statement.wf(),
        }
    }
}

/// Every node of the sequence is well-formed.
pub open spec fn all_wf(s: Seq<Box<AST>>) -> bool
    decreases s,
{
    if s.len() == 0 {
        true
    } else {
        s[0].wf() && all_wf(s.drop_first())
    }
}

/// `all_wf` holds exactly when every element is well-formed.
pub proof fn lemma_all_wf_pointwise(s: Seq<Box<AST>>)
    ensures
        all_wf(s) <==> (forall|i: int| 0 <= i < s.len() ==> #[trigger] s[i].wf()),
    decreases s,
{
    if s.len() > 0 {
        lemma_all_wf_pointwise(s.drop_first());
        if all_wf(s) {
            assert forall|i: int| 0 <= i < s.len() implies #[trigger] s[i].wf() by {
                if i > 0 {
                    assert(s.drop_first()[i - 1].wf());
                }
            }
        } else {
            if forall|i: int| 0 <= i < s.len() ==> #[trigger] s[i].wf() {
                assert forall|i: int|
                    0 <= i < s.drop_first().len() implies #[trigger] s.drop_first()[i].wf() by {
                    assert(s[i + 1].wf());
                }
                assert(s[0].wf());
                assert(all_wf(s.drop_first()));
                assert(all_wf(s));
            }
        }
    }
}

impl AST {
    /// Decides structural equality: equal models.
    pub fn deep_eq(&self, other: &AST) -> (r: bool)
        ensures
            r == (self.model() == other.model()),
        decreases self,
    {
        match (self, other) {
            (AST::Number(x), AST::Number(y)) => {
                return x.num == y.num && x.den == y.den;
            },
            (AST::Variable(v), AST::Variable(w)) => {
                return v.eq(w);
            },
            (AST::Unary(u), AST::Unary(w)) => {
                return u.sign == w.sign && u.unary.deep_eq(&w.unary);
            },
            (AST::Expr(e), AST::Expr(f)) => {
                return e.sign == f.sign && children_eq(&e.expr, &f.expr);
            },
            (AST::Term(t), AST::Term(u)) => {
                return t.sign == u.sign && children_eq(&t.term, &u.term);
            },
            (AST::Index(i), AST::Index(j)) => {
                return i.sign == j.sign && i.base.deep_eq(&j.base) && i.exponent.deep_eq(
                    &j.exponent,
                );
            },
            (AST::Call(c), AST::Call(d)) => {
                return c.name.eq(&d.name) && children_eq(&c.call, &d.call);
            },
            (AST::Identity(i), AST::Identity(j)) => {
                return children_eq(&i.identity, &j.identity);
            },
            (AST::Statement(s), AST::Statement(t)) => {
                let body = s.statement.deep_eq(&t.statement);
                let cmd = match (&s.command, &t.command) {
                    (Option::None, Option::None) => true,
                    (Option::Some(c), Option::Some(d)) => c.eq(d),
                    _ => false,
                };
                return body && cmd;
            },
            _ => {
                return false;
            },
        }
    }

    /// A fresh tree with the same model.
    pub fn deep_copy(&self) -> (r: AST)
        ensures
            r.model() == self.model(),
            r.wf() == self.wf(),
            (r is Identity) == ((*self) is Identity),
        decreases self,
    {
        match self {
            AST::Number(x) => AST::Number(*x),
            AST::Variable(v) => AST::Variable(v.clone()),
            AST::Unary(u) => AST::Unary(
                Unary { sign: u.sign, unary: Box::new(u.unary.deep_copy()) },
            ),
            AST::Expr(e) => AST::Expr(Expr { sign: e.sign, expr: copy_children(&e.expr) }),
            AST::Term(t) => AST::Term(Term { sign: t.sign, term: copy_children(&t.term) }),
            AST::Index(i) => AST::Index(
                Index {
                    sign: i.sign,
                    base: Box::new(i.base.deep_copy()),
                    exponent: Box::new(i.exponent.deep_copy()),
                },
            ),
            AST::Call(c) => AST::Call(Call { name: c.name.clone(), call: copy_children(&c.call) }),
            AST::Identity(i) => AST::Identity(Identity { identity: copy_children(&i.identity) }),
            AST::Statement(s) => AST::Statement(
                Statement {
                    statement: Box::new(s.statement.deep_copy()),
                    command: match &s.command {
                        Option::None => Option::None,
                        Option::Some(c) => Option::Some(c.clone()),
                    },
                },
            ),
        }
    }
}

/// Decides whether two child vectors have pairwise equal models.
fn children_eq(a: &Vec<Box<AST>>, b: &Vec<Box<AST>>) -> (r: bool)
    ensures
        r == (models(a@, 0) == models(b@, 0)),
    decreases a,
{
    proof {
        lemma_models_index(a@, 0);
        lemma_models_index(b@, 0);
    }
    if a.len() != b.len() {
        proof {
            assert(models(a@, 0).len() != models(b@, 0).len());
        }
        return false;
    }
    let mut i: usize = 0;
    while i < a.len()
        invariant
            a@.len() == b@.len(),
            i <= a@.len(),
            forall|j: int| 0 <= j < i ==> #[trigger] a@[j].model() == b@[j].model(),
        decreases a@.len() - i,
    {
        if !a[i].deep_eq(&b[i]) {
            proof {
                lemma_models_index(a@, 0);
                lemma_models_index(b@, 0);
                assert(models(a@, 0)[i as int] != models(b@, 0)[i as int]);
            }
            return false;
        }
        i = i + 1;
    }
    proof {
        lemma_models_index(a@, 0);
        lemma_models_index(b@, 0);
        assert(models(a@, 0) =~= models(b@, 0));
    }
    true
}

/// Copies every child of a vector, preserving each model.
fn copy_children(v: &Vec<Box<AST>>) -> (r: Vec<Box<AST>>)
    ensures
        models(r@, 0) == models(v@, 0),
        all_wf(r@) == all_wf(v@),
        r@.len() == v@.len(),
    decreases v,
{
    let mut out: Vec<Box<AST>> = Vec::new();
    let mut i: usize = 0;
    while i < v.len()
        invariant
            i <= v@.len(),
            out@.len() == i,
            forall|j: int| 0 <= j < i ==> #[trigger] out@[j].model() == v@[j].model(),
            forall|j: int| 0 <= j < i ==> #[trigger] out@[j].wf() == v@[j].wf(),
        decreases v@.len() - i,
    {
        out.push(Box::new(v[i].deep_copy()));
        i = i + 1;
    }
    proof {
        lemma_models_index(out@, 0);
        lemma_models_index(v@, 0);
        assert(models(out@, 0) =~= models(v@, 0));
        lemma_all_wf_pointwise(out@);
        lemma_all_wf_pointwise(v@);
        if all_wf(v@) {
            assert forall|j: int| 0 <= j < out@.len() implies #[trigger] out@[j].wf() by {
                assert(v@[j].wf());
            }
        }
        if all_wf(out@) {
            assert forall|j: int| 0 <= j < v@.len() implies #[trigger] v@[j].wf() by {
                assert(out@[j].wf());
            }
        }
    }
    out
}

} // verus!

//! Canonical, fully parenthesized printing of a tree.
//!
//! Deterministic per tree value and used for trace output and golden
//! tests; the result is not guaranteed to parse back. Integers print as
//! plain decimals; a non-integer rational prints as `numerator/denominator`.

use crate::ast::{Sign, AST};
use crate::rat::Rat;
use vstd::prelude::*;

verus! {

/// One decimal digit as text.
pub open spec fn spec_digit_str(d: int) -> Seq<char> {
    if d == 0 {
        "0"@
    } else if d == 1 {
        "1"@
    } else if d == 2 {
        "2"@
    } else if d == 3 {
        "3"@
    } else if d == 4 {
        "4"@
    } else if d == 5 {
        "5"@
    } else if d == 6 {
        "6"@
    } else if d == 7 {
        "7"@
    } else if d == 8 {
        "8"@
    } else {
        "9"@
    }
}

/// The decimal digits of a positive integer.
pub open spec fn spec_digits(n: int) -> Seq<char>
    decreases n,
{
    if n <= 0 {
        Seq::empty()
    } else if n < 10 {
        spec_digit_str(n)
    } else {
        spec_digits(n / 10) + spec_digit_str(n % 10)
    }
}

/// A nonnegative integer in decimal.
pub open spec fn spec_uint_str(n: int) -> Seq<char> {
    if n == 0 {
        "0"@
    } else {
        spec_digits(n)
    }
}

/// A signed integer in decimal.
pub open spec fn spec_int_str(n: int) -> Seq<char> {
    if n < 0 {
        "-"@ + spec_uint_str(-n)
    } else {
        spec_uint_str(n)
    }
}

/// A rational as text: a plain decimal for integers, else `num/den`.
pub open spec fn spec_rat_str(r: Rat) -> Seq<char> {
    if r.den == 1 {
        spec_int_str(r.num as int)
    } else {
        spec_int_str(r.num as int) + "/"@ + spec_uint_str(r.den as int)
    }
}

/// The separator a sign renders as between children.
pub open spec fn spec_sign_sep(sign: Sign) -> Seq<char> {
    match sign {
        Sign::Add => " + "@,
        Sign::Sub => " - "@,
        Sign::AddSub => " \u{00b1} "@,
        Sign::Mul => " * "@,
        Sign::Div => " / "@,
        Sign::Pow => " ^ "@,
    }
}

/// The single character a sign renders as in unary position.
pub open spec fn spec_sign_str(sign: Sign) -> Seq<char> {
    match sign {
        Sign::Add => "+"@,
        Sign::Sub => "-"@,
        Sign::AddSub => "\u{00b1}"@,
        Sign::Mul => "*"@,
        Sign::Div => "/"@,
        Sign::Pow => "^"@,
    }
}

/// The canonical text of a tree.
pub open spec fn spec_pretty(a: AST) -> Seq<char>
    decreases a, 0int,
{
    match a {
        AST::Number(n) => spec_rat_str(n),
        AST::Variable(v) => v@,
        AST::Expr(e) => if e.expr.len() == 0 {
            Seq::empty()
        } else {
            let first = spec_pretty(*e.expr[0]);
            "("@ + (if first.len() == 0 {
                "0"@
            } else {
                first
            }) + spec_join(e.expr@, 1, spec_sign_sep(e.sign)) + ")"@
        },
        AST::Term(t) => if t.term.len() == 0 {
            Seq::empty()
        } else {
            let first = spec_pretty(*t.term[0]);
            "("@ + (if first.len() == 0 {
                "0"@
            } else {
                first
            }) + spec_join(t.term@, 1, spec_sign_sep(t.sign)) + ")"@
        },
        AST::Index(i) => "("@ + spec_pretty(*i.base) + spec_sign_sep(i.sign) + spec_pretty(
            *i.exponent,
        ) + ")"@,
        AST::Unary(u) => "("@ + spec_sign_str(u.sign) + spec_pretty(*u.unary) + ")"@,
        AST::Identity(i) => if i.identity.len() == 0 {
            Seq::empty()
        } else {
            spec_pretty(*i.identity[0]) + spec_join(i.identity@, 1, " = "@)
        },
        AST::Call(c) => if c.call.len() == 0 {
            c.name@ + "("@ + ")"@
        } else {
            c.name@ + "("@ + spec_pretty(*c.call[0]) + spec_join(c.call@, 1, ", "@) + ")"@
        },
        AST::Statement(s) => spec_pretty(*s.statement),
    }
}

/// The children from index `i` on, each preceded by the separator.
pub open spec fn spec_join(children: Seq<Box<AST>>, i: int, sep: Seq<char>) -> Seq<char>
    decreases children, children.len() - i,
{
    if i < 0 || i >= children.len() {
        Seq::empty()
    } else {
        sep + spec_pretty(*children[i]) + spec_join(children, i + 1, sep)
    }
}

/// Appends the decimal digits of a positive integer.
fn push_digits(out: &mut String, n: u64)
    requires
        n >= 1,
    ensures
        final(out)@ == old(out)@ + spec_digits(n as int),
    decreases n,
{
    if n >= 10 {
        push_digits(out, n / 10);
    }
    let d = n % 10;
    if d == 0 {
        out.append("0");
    } else if d == 1 {
        out.append("1");
    } else if d == 2 {
        out.append("2");
    } else if d == 3 {
        out.append("3");
    } else if d == 4 {
        out.append("4");
    } else if d == 5 {
        out.append("5");
    } else if d == 6 {
        out.append("6");
    } else if d == 7 {
        out.append("7");
    } else if d == 8 {
        out.append("8");
    } else {
        out.append("9");
    }
}

/// Appends a nonnegative integer in decimal.
fn push_uint(out: &mut String, n: u64)
    ensures
        final(out)@ == old(out)@ + spec_uint_str(n as int),
{
    if n == 0 {
        out.append("0");
    } else {
        push_digits(out, n);
    }
}

/// Appends a signed integer in decimal.
fn push_int(out: &mut String, n: i64)
    ensures
        final(out)@ == old(out)@ + spec_int_str(n as int),
{
    if n < 0 {
        out.append("-");
        let mag: u64 = if n == i64::MIN {
            9223372036854775808u64
        } else {
            (-n) as u64
        };
        push_uint(out, mag);
    } else {
        push_uint(out, n as u64);
    }
}

/// Appends a rational in its canonical form.
fn push_rat(out: &mut String, r: Rat)
    requires
        r.wf(),
    ensures
        final(out)@ == old(out)@ + spec_rat_str(r),
{
    push_int(out, r.num);
    if r.den != 1 {
        out.append("/");
        push_uint(out, r.den as u64);
    }
}

/// Appends the separator the sign stands for between children.
fn push_sign_sep(out: &mut String, sign: Sign)
    ensures
        final(out)@ == old(out)@ + spec_sign_sep(sign),
{
    match sign {
        Sign::Add => out.append(" + "),
        Sign::Sub => out.append(" - "),
        Sign::AddSub => out.append(" \u{00b1} "),
        Sign::Mul => out.append(" * "),
        Sign::Div => out.append(" / "),
        Sign::Pow => out.append(" ^ "),
    }
}

/// Appends the single character of a unary sign.
fn push_sign(out: &mut String, sign: Sign)
    ensures
        final(out)@ == old(out)@ + spec_sign_str(sign),
{
    match sign {
        Sign::Add => out.append("+"),
        Sign::Sub => out.append("-"),
        Sign::AddSub => out.append("\u{00b1}"),
        Sign::Mul => out.append("*"),
        Sign::Div => out.append("/"),
        Sign::Pow => out.append("^"),
    }
}

/// Appends the canonical text of a well-formed tree.
fn pretty_into(out: &mut String, a: &AST)
    requires
        a.wf(),
    ensures
        final(out)@ == old(out)@ + spec_pretty(*a),
    decreases a, 0int,
{
    match a {
        AST::Number(n) => push_rat(out, *n),
        AST::Variable(v) => out.append(v.as_str()),
        AST::Expr(e) => {
            proof {
                crate::ast::lemma_all_wf_pointwise(e.expr@);
            }
            out.append("(");
            let mut first = String::new();
            pretty_into(&mut first, &e.expr[0]);
            if first.as_str().is_empty() {
                out.append("0");
            } else {
                out.append(first.as_str());
            }
            let sep = sign_sep_str(e.sign);
            pretty_join(out, &e.expr, 1, sep);
            out.append(")");
        },
        AST::Term(t) => {
            proof {
                crate::ast::lemma_all_wf_pointwise(t.term@);
            }
            out.append("(");
            let mut first = String::new();
            pretty_into(&mut first, &t.term[0]);
            if first.as_str().is_empty() {
                out.append("0");
            } else {
                out.append(first.as_str());
            }
            let sep = sign_sep_str(t.sign);
            pretty_join(out, &t.term, 1, sep);
            out.append(")");
        },
        AST::Index(i) => {
            out.append("(");
            pretty_into(out, &i.base);
            push_sign_sep(out, i.sign);
            pretty_into(out, &i.exponent);
            out.append(")");
        },
        AST::Unary(u) => {
            out.append("(");
            push_sign(out, u.sign);
            pretty_into(out, &u.unary);
            out.append(")");
        },
        AST::Identity(i) => {
            proof {
                crate::ast::lemma_all_wf_pointwise(i.identity@);
            }
            pretty_into(out, &i.identity[0]);
            pretty_join(out, &i.identity, 1, " = ");
        },
        AST::Call(c) => {
            proof {
                crate::ast::lemma_all_wf_pointwise(c.call@);
            }
            out.append(c.name.as_str());
            out.append("(");
            pretty_into(out, &c.call[0]);
            pretty_join(out, &c.call, 1, ", ");
            out.append(")");
        },
        AST::Statement(s) => pretty_into(out, &s.statement),
    }
}

/// The separator literal for a sign.
fn sign_sep_str(sign: Sign) -> (r: &'static str)
    ensures
        r@ == spec_sign_sep(sign),
{
    match sign {
        Sign::Add => " + ",
        Sign::Sub => " - ",
        Sign::AddSub => " \u{00b1} ",
        Sign::Mul => " * ",
        Sign::Div => " / ",
        Sign::Pow => " ^ ",
    }
}

/// Appends the children from index `i` on, separator first.
fn pretty_join(out: &mut String, children: &Vec<Box<AST>>, i: usize, sep: &str)
    requires
        crate::ast::all_wf(children@),
    ensures
        final(out)@ == old(out)@ + spec_join(children@, i as int, sep@),
    decreases children, children@.len() - i,
{
    if i >= children.len() {
        return ;
    }
    proof {
        crate::ast::lemma_all_wf_pointwise(children@);
    }
    out.append(sep);
    pretty_into(out, &children[i]);
    pretty_join(out, children, i + 1, sep);
}

/// The canonical, fully parenthesized text of a well-formed tree.
pub fn pretty(ast: &AST) -> (r: String)
    requires
        ast.wf(),
    ensures
        r@ == spec_pretty(*ast),
{
    let mut out = String::new();
    pretty_into(&mut out, ast);
    out
}

} // verus!

//! A small symbolic-expression engine: a lexer and recursive-descent
//! parser for algebraic statements, a structural normalizer, a
//! multi-branch evaluator over exact rationals, a canonical printer,
//! and a quadratic coefficient extractor with a closed-form solver —
//! plus a free-standing line search. Every function is verified
//! against a mathematical model of its data; anything a statement
//! cannot mean exactly is a typed, statement-scoped error rather than
//! a panic or an approximation.

pub mod ast;
pub mod eval;
pub mod expand;
pub mod grep;
pub mod lexer;
pub mod parser;
pub mod pretty;
pub mod quadratic;
pub mod rat;

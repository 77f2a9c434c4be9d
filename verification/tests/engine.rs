use graphing_calculator::ast::{Call, Expr, Sign, AST};
use graphing_calculator::eval::{eval, EvalError};
use graphing_calculator::expand::expand;
use graphing_calculator::lexer::{Lexer, TokenKind};
use graphing_calculator::parser::{ParseError, Parser};
use graphing_calculator::pretty::pretty;
use graphing_calculator::quadratic::Quadratic;
use graphing_calculator::quadratic::SolveError;
use graphing_calculator::rat::{NumError, Rat};

fn rat_int(n: i64) -> Rat {
    Rat { num: n, den: 1 }
}

fn num(n: i64) -> AST {
    AST::Number(rat_int(n))
}

fn parse_one(src: &str) -> AST {
    let mut parser = Parser::new(src.to_string()).unwrap();
    let mut statements = parser.parse().unwrap();
    assert_eq!(statements.len(), 1);
    *statements.pop().unwrap()
}

fn first_member(statement: &AST) -> AST {
    match statement {
        AST::Statement(s) => match &*s.statement {
            AST::Identity(i) => i.identity[0].deep_copy(),
            other => panic!("expected an identity, got {:?}", other),
        },
        other => panic!("expected a statement, got {:?}", other),
    }
}

fn solve_source(src: &str, var: &str) -> AST {
    let statement = parse_one(src);
    let expanded = expand(&statement).unwrap();
    let quadratic = Quadratic::from(&expanded, var.to_string()).unwrap();
    quadratic.solve().unwrap()
}

#[test]
fn pretty_golden_values() {
    assert_eq!(pretty(&num(3)), "3");
    let sum = AST::Expr(Expr {
        sign: Sign::Add,
        expr: vec![Box::new(num(1)), Box::new(num(2))],
    });
    assert_eq!(pretty(&sum), "(1 + 2)");
    let root = AST::Call(Call {
        name: "sqrt".to_string(),
        call: vec![Box::new(num(4))],
    });
    assert_eq!(pretty(&root), "sqrt(4)");
}

#[test]
fn pretty_renders_fractions_and_branches() {
    assert_eq!(pretty(&AST::Number(Rat { num: 25, den: 10 })), "25/10");
    let statement = parse_one("1 +- 2 = 0;");
    let lhs = first_member(&statement);
    assert_eq!(pretty(&lhs), "(1 \u{00b1} 2)");
    let values = eval(&lhs, rat_int(0)).unwrap();
    assert_eq!(values, vec![rat_int(3), rat_int(-1)]);
}

#[test]
fn lexer_token_stream() {
    let mut lexer = Lexer::new("x + 2.5; # note\n@draw".to_string());
    let token = lexer.get_next_token().unwrap();
    assert_eq!(token.kind, TokenKind::Identifier);
    assert_eq!(token.value, "x");
    assert_eq!(token.position.human.line, 1);
    assert_eq!(token.position.human.column, 1);
    assert_eq!(token.position.machine, 0);
    let token = lexer.get_next_token().unwrap();
    assert_eq!(token.kind, TokenKind::Add);
    let token = lexer.get_next_token().unwrap();
    assert_eq!(token.kind, TokenKind::Number);
    assert_eq!(token.value, "2.5");
    let token = lexer.get_next_token().unwrap();
    assert_eq!(token.kind, TokenKind::Semicolon);
    let token = lexer.get_next_token().unwrap();
    assert_eq!(token.kind, TokenKind::Command);
    assert_eq!(token.position.human.line, 2);
    let token = lexer.get_next_token().unwrap();
    assert_eq!(token.kind, TokenKind::Identifier);
    assert_eq!(token.value, "draw");
    let token = lexer.get_next_token().unwrap();
    assert_eq!(token.kind, TokenKind::EOF);
}

#[test]
fn lexer_rejects_unknown_characters() {
    let mut lexer = Lexer::new("  $".to_string());
    let error = lexer.get_next_token().unwrap_err();
    assert_eq!(error.ch, '$');
    assert_eq!(error.line, 1);
    assert_eq!(error.column, 3);
}

#[test]
fn lexer_fuses_plus_minus() {
    let mut lexer = Lexer::new("+- + -".to_string());
    assert_eq!(lexer.get_next_token().unwrap().kind, TokenKind::AddSubtract);
    assert_eq!(lexer.get_next_token().unwrap().kind, TokenKind::Add);
    assert_eq!(lexer.get_next_token().unwrap().kind, TokenKind::Subtract);
}

#[test]
fn parser_reads_numbers_exactly() {
    let statement = parse_one("2.5 = 0;");
    let lhs = first_member(&statement);
    assert!(lhs.deep_eq(&AST::Number(Rat { num: 25, den: 10 })));
}

#[test]
fn parser_rejects_unexpected_tokens() {
    let mut parser = Parser::new("x + = 5;".to_string()).unwrap();
    match parser.parse().unwrap_err() {
        ParseError::Syntax { kind, .. } => assert_eq!(kind, TokenKind::Assign),
        other => panic!("expected a syntax error, got {:?}", other),
    }
}

#[test]
fn parser_accepts_empty_input() {
    let mut parser = Parser::new(String::new()).unwrap();
    assert_eq!(parser.parse().unwrap().len(), 0);
}

#[test]
fn parser_keeps_commands() {
    let statement = parse_one("x = 1; @draw");
    match statement {
        AST::Statement(s) => assert_eq!(s.command.as_deref(), Some("draw")),
        other => panic!("expected a statement, got {:?}", other),
    }
}

#[test]
fn implicit_multiplication_and_power_nesting() {
    let statement = parse_one("2x = 2^3^2;");
    let lhs = first_member(&statement);
    assert_eq!(pretty(&lhs), "(2 * x)");
    let rhs = match &statement {
        AST::Statement(s) => match &*s.statement {
            AST::Identity(i) => i.identity[1].deep_copy(),
            _ => unreachable!(),
        },
        _ => unreachable!(),
    };
    let folded = expand(&rhs).unwrap();
    assert!(folded.deep_eq(&num(512)));
}

#[test]
fn eval_reports_typed_errors() {
    let unknown = first_member(&parse_one("z = 1;"));
    assert!(matches!(
        eval(&unknown, rat_int(0)),
        Err(EvalError::UnknownVariable(v)) if v == "z"
    ));
    let call = first_member(&parse_one("foo(1) = 1;"));
    assert!(matches!(
        eval(&call, rat_int(0)),
        Err(EvalError::UnknownCall(v)) if v == "foo"
    ));
    let divide = first_member(&parse_one("1/0 = 1;"));
    assert_eq!(
        eval(&divide, rat_int(0)),
        Err(EvalError::Numeric(NumError::DivByZero))
    );
    let root = first_member(&parse_one("sqrt(2) = 1;"));
    assert_eq!(
        eval(&root, rat_int(0)),
        Err(EvalError::Numeric(NumError::Inexact))
    );
}

#[test]
fn eval_folds_literals_preserving_value() {
    // literal-only trees keep their first value across expand
    for source in ["1 + 2 * 3 = 0;", "(2 + 3) * 4 = 0;", "10 - 2 - 3 = 0;", "8 / 2 = 0;"] {
        let tree = first_member(&parse_one(source));
        let before = eval(&tree, rat_int(7)).unwrap();
        let expanded = expand(&tree).unwrap();
        let after = eval(&expanded, rat_int(7)).unwrap();
        assert_eq!(
            before[0].num * after[0].den,
            after[0].num * before[0].den,
            "value changed for {source}"
        );
    }
}

#[test]
fn expand_is_idempotent_on_samples() {
    for source in [
        "1 + x + 2 * x * 3 = 0;",
        "x - 3 - 2 = 0;",
        "1 +- 2 +- x = 0;",
        "sqrt(2) + sin(x) = 0;",
        "(1 + (2 + x)) * (x * 2 * x) = 0;",
    ] {
        let tree = parse_one(source);
        let once = expand(&tree).unwrap();
        let twice = expand(&once).unwrap();
        assert!(twice.deep_eq(&once), "not idempotent for {source}");
    }
}

#[test]
fn expand_flattens_and_folds_leading_sum() {
    let lhs = first_member(&parse_one("1 + (2 + x) + x = 0;"));
    let expanded = expand(&lhs).unwrap();
    assert_eq!(pretty(&expanded), "(3 + x + x)");
}

#[test]
fn expand_subtracts_literals_arithmetically() {
    // the folded value under a `-` chain is the arithmetic difference
    let head = first_member(&parse_one("5 - 2 = 0;"));
    assert!(expand(&head).unwrap().deep_eq(&num(3)));
    let tail = first_member(&parse_one("x - 3 - 2 = 0;"));
    assert_eq!(pretty(&expand(&tail).unwrap()), "(x - 5)");
}

#[test]
fn expand_folds_exact_calls_only() {
    let exact = first_member(&parse_one("sqrt(16) = 0;"));
    assert!(expand(&exact).unwrap().deep_eq(&num(4)));
    let inexact = first_member(&parse_one("sqrt(2) = 0;"));
    assert_eq!(pretty(&expand(&inexact).unwrap()), "sqrt(2)");
    let trig = first_member(&parse_one("sin(0) = 0;"));
    assert!(expand(&trig).unwrap().deep_eq(&num(0)));
}

#[test]
fn degenerate_identity_solves_to_zero() {
    // `2 = 2;` has a = b = 0 and c folding to zero
    let solved = solve_source("2 = 2;", "x");
    let values = eval(&solved, rat_int(0)).unwrap();
    assert_eq!(values, vec![rat_int(0)]);
    assert_eq!(pretty(&solved), "x = (2 - 2)");
}

#[test]
fn linear_identity_solves_for_x() {
    // `x + 2 = 5;` one-sides to b = 1, c = -3 and solves to x = 3
    let statement = parse_one("x + 2 = 5;");
    let expanded = expand(&statement).unwrap();
    let quadratic = Quadratic::from(&expanded, "x".to_string()).unwrap();
    let a0 = eval(&quadratic.a, rat_int(0)).unwrap();
    let b0 = eval(&quadratic.b, rat_int(0)).unwrap();
    let c0 = eval(&quadratic.c, rat_int(0)).unwrap();
    assert_eq!(a0[0].num, 0);
    assert_eq!(b0[0].num, b0[0].den);
    assert_eq!(c0[0].num, -3 * c0[0].den);
    let solved = quadratic.solve().unwrap();
    let values = eval(&solved, rat_int(0)).unwrap();
    assert_eq!(values.len(), 1);
    assert_eq!(values[0].num, 3 * values[0].den);
}

#[test]
fn quadratic_identity_solves_both_roots() {
    // `x^2 - 4 = 0;` extracts a = 1, b = 0, c = -4; the formula branch
    // yields the roots 2 and -2
    let statement = parse_one("x^2 - 4 = 0;");
    let expanded = expand(&statement).unwrap();
    let quadratic = Quadratic::from(&expanded, "x".to_string()).unwrap();
    let a0 = eval(&quadratic.a, rat_int(0)).unwrap();
    let b0 = eval(&quadratic.b, rat_int(0)).unwrap();
    let c0 = eval(&quadratic.c, rat_int(0)).unwrap();
    assert_eq!(a0[0].num, 1 * a0[0].den);
    assert_eq!(b0[0].num, 0);
    assert_eq!(c0[0].num, -4 * c0[0].den);
    let solved = quadratic.solve().unwrap();
    let values = eval(&solved, rat_int(9)).unwrap();
    assert_eq!(values.len(), 2);
    assert_eq!(values[0].num, 2 * values[0].den);
    assert_eq!(values[1].num, -2 * values[1].den);
}

#[test]
fn quadratic_roots_satisfy_the_equation() {
    // literal a, b, c with a nonzero discriminant square: both returned
    // roots satisfy a*r^2 + b*r + c = 0
    let quadratic = Quadratic::new(num(1), num(-3), num(2), "x".to_string());
    let solved = quadratic.solve().unwrap();
    let roots = eval(&solved, rat_int(0)).unwrap();
    assert_eq!(roots.len(), 2);
    for root in roots {
        // a*r^2 + b*r + c with a=1, b=-3, c=2, over exact fractions
        let r2_num = root.num * root.num;
        let r2_den = root.den * root.den;
        let value_num = r2_num + (-3) * root.num * root.den + 2 * r2_den;
        assert_eq!(value_num, 0, "root {}/{} does not satisfy", root.num, root.den);
    }
}

#[test]
fn solves_for_y_in_terms_of_x() {
    // `y = 2 - x;` solved for y is linear: y = -(0 - (2 - x)) / 1
    let solved = solve_source("y = 2 - x;", "y");
    let values = eval(&solved, rat_int(1)).unwrap();
    assert_eq!(values[0].num, 1 * values[0].den);
}

#[test]
fn cross_variable_solve_recurses() {
    // `y = 2;` solved for x: both coefficients vanish and c holds only
    // y, so the cascade extracts and solves for y inside
    let solved = solve_source("y = 2;", "x");
    let values = eval(&solved, rat_int(0)).unwrap();
    assert_eq!(values[0].num, 2 * values[0].den);
}

#[test]
fn solver_reports_depth_on_unsupported_shapes() {
    // `-x` stays a unary factor, lands whole in c, and never reduces
    let statement = parse_one("0 - sqrt(x) = 0;");
    let expanded = expand(&statement).unwrap();
    let quadratic = Quadratic::from(&expanded, "x".to_string()).unwrap();
    assert_eq!(quadratic.solve().unwrap_err(), SolveError::Depth);
}

#[test]
fn rational_arithmetic_is_exact() {
    let half = Rat { num: 1, den: 2 };
    let third = Rat { num: 1, den: 3 };
    assert_eq!(half.checked_add(third), Some(Rat { num: 5, den: 6 }));
    assert_eq!(half.checked_mul(third), Some(Rat { num: 1, den: 6 }));
    assert_eq!(half.checked_div(third), Ok(Rat { num: 3, den: 2 }));
    assert_eq!(rat_int(16).checked_sqrt(), Ok(rat_int(4)));
    assert_eq!(rat_int(2).checked_sqrt(), Err(NumError::Inexact));
    assert_eq!(rat_int(2).checked_pow(rat_int(10)), Ok(rat_int(1024)));
    assert_eq!(rat_int(2).checked_pow(Rat { num: 1, den: 2 }), Err(NumError::Inexact));
    assert_eq!(
        Rat { num: i64::MAX, den: 1 }.checked_add(rat_int(1)),
        None
    );
}

#[test]
fn oversized_literals_are_rejected() {
    let mut parser = Parser::new("1234567890123456789 = 0;".to_string()).unwrap();
    assert!(matches!(
        parser.parse().unwrap_err(),
        ParseError::BadNumber { .. }
    ));
}

use kot::ast::{Ast, BinaryOperation, PosAst, Typing, UnaryOperation};
use kot::environment::Environment;
use kot::interpreter::{Interpreter, RuntimeError};
use kot::lexer::lex;
use kot::parser::parse;
use kot::Pos;

fn eval_source(src: &str) -> Result<Option<Typing>, RuntimeError> {
    let ast = parse(lex(src).unwrap()).unwrap();
    let mut interpreter = Interpreter::new(ast);
    interpreter.run()
}

#[test]
fn interpreter_one_plus_two() {
    // 1 + 2 evaluates to Int64(3)
    assert_eq!(eval_source("1 + 2"), Ok(Some(Typing::Int64(3))));
}

#[test]
fn interpreter_parenthesized_product() {
    // (1 + 2) * 3 evaluates to Int64(9)
    assert_eq!(eval_source("(1 + 2) * 3"), Ok(Some(Typing::Int64(9))));
}

#[test]
fn interpreter_unbound_identifier() {
    // an unbound identifier faults as not-found at the identifier's token
    assert_eq!(
        eval_source("x"),
        Err(RuntimeError::NotFound {
            id: "x".to_string(),
            pos: Pos::new(1, 1)
        })
    );
}

#[test]
fn interpreter_true_plus_one() {
    // true + 1 faults as a type mismatch naming the Add operator
    assert_eq!(
        eval_source("true + 1"),
        Err(RuntimeError::TypeMismatchBinary {
            op: BinaryOperation::Add,
            pos: Pos::new(1, 6)
        })
    );
}

#[test]
fn interpreter_division() {
    assert_eq!(eval_source("7 / 2"), Ok(Some(Typing::Int64(3))));
    assert_eq!(eval_source("7 % 2"), Ok(Some(Typing::Int64(1))));
    assert_eq!(
        eval_source("1 / 0"),
        Err(RuntimeError::DivisionByZero {
            op: BinaryOperation::Divide,
            pos: Pos::new(1, 3)
        })
    );
    assert_eq!(
        eval_source("1 % 0"),
        Err(RuntimeError::DivisionByZero {
            op: BinaryOperation::Modulus,
            pos: Pos::new(1, 3)
        })
    );
}

#[test]
fn interpreter_wrapping_arithmetic() {
    assert_eq!(
        eval_source("9223372036854775807 + 1"),
        Ok(Some(Typing::Int64(i64::MIN)))
    );
    assert_eq!(
        eval_source("-9223372036854775808 - 1"),
        Ok(Some(Typing::Int64(i64::MAX)))
    );
}

#[test]
fn interpreter_comparisons_and_booleans() {
    assert_eq!(eval_source("1 < 2"), Ok(Some(Typing::Boolean(true))));
    assert_eq!(eval_source("2 <= 1"), Ok(Some(Typing::Boolean(false))));
    assert_eq!(eval_source("3 == 3"), Ok(Some(Typing::Boolean(true))));
    assert_eq!(eval_source("3 != 3"), Ok(Some(Typing::Boolean(false))));
    assert_eq!(eval_source("true && false"), Ok(Some(Typing::Boolean(false))));
    assert_eq!(eval_source("true || false"), Ok(Some(Typing::Boolean(true))));
    assert_eq!(eval_source("true ^^ true"), Ok(Some(Typing::Boolean(false))));
}

#[test]
fn interpreter_bitwise_and_shifts() {
    assert_eq!(eval_source("12 & 10"), Ok(Some(Typing::Int64(8))));
    assert_eq!(eval_source("12 | 10"), Ok(Some(Typing::Int64(14))));
    assert_eq!(eval_source("12 ^ 10"), Ok(Some(Typing::Int64(6))));
    assert_eq!(eval_source("1 << 4"), Ok(Some(Typing::Int64(16))));
    assert_eq!(eval_source("16 >> 2"), Ok(Some(Typing::Int64(4))));
    assert_eq!(eval_source("1 | 10  & 12 | ( 1 & 1)"), Ok(Some(Typing::Int64(9))));
}

#[test]
fn interpreter_unary_operators() {
    assert_eq!(eval_source("-5"), Ok(Some(Typing::Int64(-5))));
    assert_eq!(eval_source("- (10)"), Ok(Some(Typing::Int64(-10))));
    assert_eq!(eval_source("1 + ------1000000"), Ok(Some(Typing::Int64(1000001))));
    assert_eq!(eval_source("!true"), Ok(Some(Typing::Boolean(false))));
    assert_eq!(eval_source("~0"), Ok(Some(Typing::Int64(-1))));
    assert_eq!(
        eval_source("!1"),
        Err(RuntimeError::TypeMismatchUnary {
            op: UnaryOperation::BooleanNot,
            pos: Pos::new(1, 1)
        })
    );
}

#[test]
fn interpreter_block_value_is_last_child() {
    // a block's value is its final child's; an empty block has no value
    let block = PosAst::new(
        Ast::Block(vec![
            PosAst::new(Ast::Value(Typing::Int64(1)), Pos::new(1, 1)),
            PosAst::new(Ast::Value(Typing::Int64(2)), Pos::new(1, 3)),
        ]),
        Pos::new(1, 1),
    );
    let mut interpreter = Interpreter::new(block);
    assert_eq!(interpreter.run(), Ok(Some(Typing::Int64(2))));

    let empty = PosAst::new(Ast::Block(Vec::new()), Pos::new(1, 1));
    let mut interpreter2 = Interpreter::new(empty);
    assert_eq!(interpreter2.run(), Ok(None));
}

#[test]
fn interpreter_assignment_binds_and_returns() {
    // an assignment returns the assigned value and binds it in the
    // innermost frame, readable after the run
    let node = PosAst::new(
        Ast::Assignment(
            "x".to_string(),
            Box::new(PosAst::new(Ast::Value(Typing::Int64(7)), Pos::new(1, 5))),
        ),
        Pos::new(1, 1),
    );
    let mut interpreter = Interpreter::new(node);
    assert_eq!(interpreter.run(), Ok(Some(Typing::Int64(7))));
    assert_eq!(
        interpreter.envir.get(&"x".to_string()),
        Some(&Typing::Int64(7))
    );
}

#[test]
fn interpreter_assignment_of_no_value() {
    // assigning the value of an empty block faults: there is nothing to bind
    let node = PosAst::new(
        Ast::Assignment(
            "x".to_string(),
            Box::new(PosAst::new(Ast::Block(Vec::new()), Pos::new(1, 5))),
        ),
        Pos::new(1, 1),
    );
    let mut interpreter = Interpreter::new(node);
    assert_eq!(interpreter.run(), Err(RuntimeError::NoValue { pos: Pos::new(1, 1) }));
}

#[test]
fn interpreter_reads_seeded_environment() {
    // a pre-seeded binding resolves through a Value(Ident) node
    let mut envir = Environment::new();
    let _ = envir.set("platform".to_string(), Typing::Int64(42));
    let node = PosAst::new(
        Ast::Value(Typing::Ident("platform".to_string())),
        Pos::new(1, 1),
    );
    let mut interpreter = Interpreter::new_with_environment(node, envir);
    assert_eq!(interpreter.run(), Ok(Some(Typing::Int64(42))));
}

#[test]
fn interpreter_deterministic_across_runs() {
    // the same tree against environments with identical bindings yields the
    // same value, and the same fault for faulting inputs
    let a = eval_source("(8 - 3) * (2 + 2)");
    let b = eval_source("(8 - 3) * (2 + 2)");
    assert_eq!(a, b);
    let fa = eval_source("missing");
    let fb = eval_source("missing");
    assert_eq!(fa, fb);
}

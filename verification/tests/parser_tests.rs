use kot::ast::{Ast, BinaryOperation, PosAst, Typing, UnaryOperation};
use kot::lexer::lex;
use kot::parser::{parse, parse_number, NumberError, ParseError};
use kot::token::{PosToken, Token};
use kot::Pos;

fn int_node(v: i64, line: usize, col: usize) -> PosAst {
    PosAst::new(Ast::Value(Typing::Int64(v)), Pos::new(line, col))
}

#[test]
fn test_parser() {
    println!("{:?}", parse(lex(r"-1").unwrap()).unwrap());
    println!("{:?}", parse(lex(r"1-1").unwrap()).unwrap());
    println!("{:?}", parse(lex(r"1 - (10)").unwrap()).unwrap());
    println!("{:?}", parse(lex(r"- (10)").unwrap()).unwrap());
    println!(
        "{:?}",
        parse(lex(r"-(10 - 10 + 100 --- 10)").unwrap()).unwrap()
    );
    println!(
        "{:?}",
        parse(lex(r"1 | 10  & 12 | ( 1 & 1)").unwrap()).unwrap()
    );
}

#[test]
fn parser_one_plus_two_tree() {
    // input tokens for `1 + 2` give Root(BinOp(Add, Value(1), Value(2)))
    let ast = parse(lex("1 + 2").unwrap()).unwrap();
    let expected = PosAst::new(
        Ast::Root(Box::new(PosAst::new(
            Ast::BinOp(
                BinaryOperation::Add,
                Box::new(int_node(1, 1, 1)),
                Box::new(int_node(2, 1, 5)),
            ),
            Pos::new(1, 3),
        ))),
        Pos::new(0, 0),
    );
    assert_eq!(ast, expected);
}

#[test]
fn parser_parenthesized_product_tree() {
    // input tokens for `(1 + 2) * 3` give
    // Root(BinOp(Multiply, BinOp(Add, 1, 2), 3))
    let ast = parse(lex("(1 + 2) * 3").unwrap()).unwrap();
    let expected = PosAst::new(
        Ast::Root(Box::new(PosAst::new(
            Ast::BinOp(
                BinaryOperation::Multiply,
                Box::new(PosAst::new(
                    Ast::BinOp(
                        BinaryOperation::Add,
                        Box::new(int_node(1, 1, 2)),
                        Box::new(int_node(2, 1, 6)),
                    ),
                    Pos::new(1, 4),
                )),
                Box::new(int_node(3, 1, 11)),
            ),
            Pos::new(1, 9),
        ))),
        Pos::new(0, 0),
    );
    assert_eq!(ast, expected);
}

#[test]
fn parser_precedence_add_under_multiply() {
    // the tighter operator binds first: 1 + 2 * 3 is Add(1, Multiply(2, 3))
    let ast = parse(lex("1 + 2 * 3").unwrap()).unwrap();
    match &ast.ast {
        Ast::Root(top) => match &top.ast {
            Ast::BinOp(BinaryOperation::Add, l, r) => {
                assert_eq!(l.ast, Ast::Value(Typing::Int64(1)));
                match &r.ast {
                    Ast::BinOp(BinaryOperation::Multiply, rl, rr) => {
                        assert_eq!(rl.ast, Ast::Value(Typing::Int64(2)));
                        assert_eq!(rr.ast, Ast::Value(Typing::Int64(3)));
                    }
                    other => panic!("wrong right operand: {other:?}"),
                }
            }
            other => panic!("wrong top operator: {other:?}"),
        },
        other => panic!("missing root: {other:?}"),
    }
}

#[test]
fn parser_subtraction_associates_right() {
    // same-level chains re-enter the level on the right:
    // a - b - c is Subtract(a, Subtract(b, c))
    let ast = parse(lex("7 - 4 - 2").unwrap()).unwrap();
    match &ast.ast {
        Ast::Root(top) => match &top.ast {
            Ast::BinOp(BinaryOperation::Subtract, l, r) => {
                assert_eq!(l.ast, Ast::Value(Typing::Int64(7)));
                match &r.ast {
                    Ast::BinOp(BinaryOperation::Subtract, rl, rr) => {
                        assert_eq!(rl.ast, Ast::Value(Typing::Int64(4)));
                        assert_eq!(rr.ast, Ast::Value(Typing::Int64(2)));
                    }
                    other => panic!("wrong right operand: {other:?}"),
                }
            }
            other => panic!("wrong top operator: {other:?}"),
        },
        other => panic!("missing root: {other:?}"),
    }
}

#[test]
fn parser_paren_round_trip_same_tokens() {
    // wrapping the expression of a token stream in parentheses parses to
    // the identical tree when the inner tokens keep their positions
    let p = Pos::new(1, 1);
    let ts = vec![
        PosToken::new(Token::Number("1".to_string()), 1, 1),
        PosToken::new(Token::Add, 1, 3),
        PosToken::new(Token::Number("2".to_string()), 1, 5),
        PosToken::new(Token::EOF, 1, 6),
    ];
    let ts2 = vec![
        PosToken { token: Token::LParan, pos: p },
        PosToken::new(Token::Number("1".to_string()), 1, 1),
        PosToken::new(Token::Add, 1, 3),
        PosToken::new(Token::Number("2".to_string()), 1, 5),
        PosToken { token: Token::RParan, pos: Pos::new(1, 6) },
        PosToken::new(Token::EOF, 1, 6),
    ];
    assert_eq!(parse(ts).unwrap(), parse(ts2).unwrap());
}

#[test]
fn parser_unary_and_idents() {
    let ast = parse(lex("!ready").unwrap()).unwrap();
    match &ast.ast {
        Ast::Root(top) => match &top.ast {
            Ast::UnaryOp(UnaryOperation::BooleanNot, inner) => {
                assert_eq!(inner.ast, Ast::Value(Typing::Ident("ready".to_string())));
            }
            other => panic!("wrong unary: {other:?}"),
        },
        other => panic!("missing root: {other:?}"),
    }
    let ast2 = parse(lex("~5").unwrap()).unwrap();
    match &ast2.ast {
        Ast::Root(top) => assert!(matches!(
            top.ast,
            Ast::UnaryOp(UnaryOperation::BitwiseNot, _)
        )),
        other => panic!("missing root: {other:?}"),
    }
}

#[test]
fn parser_faults() {
    // a missing close parenthesis cites the opening one
    assert_eq!(
        parse(lex("(1 + 2").unwrap()).err().unwrap(),
        ParseError::UnclosedParenthesis { pos: Pos::new(1, 1) }
    );
    // a trailing token after the expression
    assert_eq!(
        parse(lex("1 2").unwrap()).err().unwrap(),
        ParseError::ExpectedEof {
            token: Token::Number("2".to_string()),
            pos: Pos::new(1, 3)
        }
    );
    // an unrecognized leading token in primary position carries the token
    assert_eq!(
        parse(lex("* 1").unwrap()).err().unwrap(),
        ParseError::UnexpectedToken {
            token: Token::Multiply,
            pos: Pos::new(1, 1)
        }
    );
    // a stream without the end marker runs out
    assert_eq!(parse(Vec::new()).err().unwrap(), ParseError::UnexpectedEnd);
    // a numeric literal with a decimal point is rejected explicitly
    assert_eq!(
        parse(lex("1.5").unwrap()).err().unwrap(),
        ParseError::Number {
            error: NumberError::DecimalPoint,
            pos: Pos::new(1, 1)
        }
    );
    // a literal too large for a signed 64-bit integer
    assert_eq!(
        parse(lex("9223372036854775808").unwrap()).err().unwrap(),
        ParseError::Number {
            error: NumberError::TooLarge,
            pos: Pos::new(1, 1)
        }
    );
}

#[test]
fn parser_parse_number_values() {
    assert_eq!(
        parse_number(&Token::Number("123".to_string())),
        Ok(Typing::Int64(123))
    );
    assert_eq!(
        parse_number(&Token::Number("-110".to_string())),
        Ok(Typing::Int64(-110))
    );
    assert_eq!(
        parse_number(&Token::Number("9223372036854775807".to_string())),
        Ok(Typing::Int64(i64::MAX))
    );
    assert_eq!(
        parse_number(&Token::Number("-9223372036854775808".to_string())),
        Ok(Typing::Int64(i64::MIN))
    );
    assert_eq!(
        parse_number(&Token::Number("-9223372036854775809".to_string())),
        Err(NumberError::TooLarge)
    );
    assert_eq!(
        parse_number(&Token::NumberHex("ff".to_string())),
        Ok(Typing::Int64(255))
    );
    assert_eq!(
        parse_number(&Token::NumberBinary("1010".to_string())),
        Ok(Typing::Int64(10))
    );
    assert_eq!(
        parse_number(&Token::Number("1.5".to_string())),
        Err(NumberError::DecimalPoint)
    );
    assert_eq!(
        parse_number(&Token::Number("12a".to_string())),
        Err(NumberError::InvalidDigit)
    );
    assert_eq!(
        parse_number(&Token::NumberHex("g".to_string())),
        Err(NumberError::InvalidDigit)
    );
    assert_eq!(parse_number(&Token::Add), Err(NumberError::NotANumber));
}

#[test]
fn parser_booleans_in_primary() {
    let ast = parse(lex("true ^^ false").unwrap()).unwrap();
    match &ast.ast {
        Ast::Root(top) => match &top.ast {
            Ast::BinOp(BinaryOperation::BooleanXor, l, r) => {
                assert_eq!(l.ast, Ast::Value(Typing::Boolean(true)));
                assert_eq!(r.ast, Ast::Value(Typing::Boolean(false)));
            }
            other => panic!("wrong top operator: {other:?}"),
        },
        other => panic!("missing root: {other:?}"),
    }
}

//! Precedence-climbing recursive descent: one function per operator
//! precedence level, binding from loosest (boolean or) to tightest
//! (multiplicative), then prefix unary operators and primary expressions.
//!
//! Each binary level parses the next-tighter level for its left operand;
//! when the current token is an operator of the level it is consumed and
//! the same level is parsed recursively for the right operand, so chained
//! operators at one level associate to the right (kept deliberately, as the
//! associativity law and its test pin down).

use vstd::prelude::*;
use crate::{Pos, chars_of};
use crate::ast::{Ast, BinaryOperation, PosAst, Typing, UnaryOperation};
use crate::token::{PosToken, Token};

verus! {

/// Why a numeric literal could not be turned into a value.
#[derive(Debug, PartialEq, Eq, Copy, Clone)]
pub enum NumberError {
    /// The literal contains a decimal point: floats are not representable
    /// at the literal-parsing boundary, so they are rejected explicitly.
    DecimalPoint,
    /// A character of the literal is no digit of its radix, or the literal
    /// is empty.
    InvalidDigit,
    /// The value does not fit in a signed 64-bit integer.
    TooLarge,
    /// The token is not a numeric literal at all.
    NotANumber,
}

/// A syntax fault: an unexpected token in a given grammar position,
/// reported at the point of mismatch.
#[derive(Debug, PartialEq, Eq)]
pub enum ParseError {
    /// An unrecognized leading token in primary position.
    UnexpectedToken { token: Token, pos: Pos },
    /// The token stream ran out without its end marker.
    UnexpectedEnd,
    /// A parenthesized expression without its closing parenthesis; the
    /// position cites the opening parenthesis.
    UnclosedParenthesis { pos: Pos },
    /// A token other than the end marker follows the parsed expression.
    ExpectedEof { token: Token, pos: Pos },
    /// A numeric literal in primary position could not be read.
    Number { error: NumberError, pos: Pos },
}

/// The value of one digit character, under the given radix.
pub open spec fn digit_val(c: char, radix: int) -> Option<int> {
    if radix == 16 {
        if '0' <= c && c <= '9' {
            Some(c as u32 - 48)
        } else if 'a' <= c && c <= 'f' {
            Some(c as u32 - 87)
        } else {
            None
        }
    } else if radix == 2 {
        if c == '0' || c == '1' {
            Some(c as u32 - 48)
        } else {
            None
        }
    } else {
        if '0' <= c && c <= '9' {
            Some(c as u32 - 48)
        } else {
            None
        }
    }
}

/// A non-empty run of digits, all valid under the radix.
pub open spec fn digits_valid(s: Seq<char>, radix: int) -> bool {
    s.len() > 0 && forall|i: int| 0 <= i < s.len() ==> (#[trigger] digit_val(s[i], radix)) is Some
}

/// The integer a digit string stands for under the radix.
pub open spec fn digits_value(s: Seq<char>, radix: int) -> int
    decreases s.len(),
{
    if s.len() == 0 {
        0
    } else {
        digits_value(s.drop_last(), radix) * radix + (match digit_val(s.last(), radix) {
            Some(d) => d,
            None => 0,
        })
    }
}

/// What reading a numeric-literal token yields: the stored radix and digit
/// string interpreted as a signed 64-bit integer value, or the error that
/// rejects it.
pub open spec fn spec_parse_number(t: Token) -> Result<Typing, NumberError> {
    match t {
        Token::Number(s) => {
            let cs = s@;
            let neg = cs.len() > 0 && cs[0] == '-';
            let ds = if neg {
                cs.drop_first()
            } else {
                cs
            };
            if ds.contains('.') {
                Err(NumberError::DecimalPoint)
            } else if !digits_valid(ds, 10) {
                Err(NumberError::InvalidDigit)
            } else {
                let v = if neg {
                    -digits_value(ds, 10)
                } else {
                    digits_value(ds, 10)
                };
                if v < -0x8000_0000_0000_0000 || v > 0x7fff_ffff_ffff_ffff {
                    Err(NumberError::TooLarge)
                } else {
                    Ok(Typing::Int64(v as i64))
                }
            }
        },
        Token::NumberHex(s) => spec_parse_radix_number(s@, 16),
        Token::NumberBinary(s) => spec_parse_radix_number(s@, 2),
        _ => Err(NumberError::NotANumber),
    }
}

/// An unsigned digit string under a radix, as a signed 64-bit value.
pub open spec fn spec_parse_radix_number(cs: Seq<char>, radix: int) -> Result<Typing, NumberError> {
    if !digits_valid(cs, radix) {
        Err(NumberError::InvalidDigit)
    } else if digits_value(cs, radix) > 0x7fff_ffff_ffff_ffff {
        Err(NumberError::TooLarge)
    } else {
        Ok(Typing::Int64(digits_value(cs, radix) as i64))
    }
}

/// A digit string of valid digits stands for a value that is not negative.
pub(crate) proof fn lemma_digits_value_nonneg(s: Seq<char>, radix: int)
    requires
        radix >= 2,
    ensures
        digits_value(s, radix) >= 0,
    decreases s.len(),
{
    if s.len() > 0 {
        lemma_digits_value_nonneg(s.drop_last(), radix);
    }
}

/// Extending a digit string never shrinks its value: the whole string is
/// worth at least any prefix.
pub(crate) proof fn lemma_digits_value_prefix(s: Seq<char>, radix: int, i: int)
    requires
        radix >= 2,
        0 <= i <= s.len(),
    ensures
        digits_value(s, radix) >= digits_value(s.take(i), radix),
    decreases s.len() - i,
{
    if i == s.len() {
        assert(s.take(i) =~= s);
    } else {
        lemma_digits_value_prefix(s, radix, i + 1);
        let p = s.take(i + 1);
        assert(p.drop_last() =~= s.take(i));
        lemma_digits_value_nonneg(s.take(i), radix);
        assert(digits_value(p, radix) >= digits_value(s.take(i), radix)) by {
            let v = digits_value(s.take(i), radix);
            let d = match digit_val(p.last(), radix) {
                Some(d) => d,
                None => 0int,
            };
            assert(digits_value(p, radix) == v * radix + d);
            assert(v * radix >= v) by (nonlinear_arith)
                requires
                    v >= 0,
                    radix >= 2,
            ;
            assert(d >= 0);
        }
    }
}

/// Reads a numeric-literal token into a typed value: the stored radix and
/// digit string become a signed 64-bit integer. A literal with a decimal
/// point, an out-of-radix digit, or a value over the 64-bit range is
/// rejected, as is a token that is no numeric literal.
pub fn parse_number(num: &Token) -> (r: Result<Typing, NumberError>)
    ensures
        r == spec_parse_number(*num),
{
    match num {
        Token::Number(s) => {
            let cs = chars_of(s.as_str());
            let neg = cs.len() > 0 && cs[0] == '-';
            let start: usize = if neg {
                1
            } else {
                0
            };
            proof {
                if neg {
                    assert(s@.drop_first() =~= cs@.subrange(1, cs@.len() as int));
                } else {
                    assert(s@ =~= cs@.subrange(0, cs@.len() as int));
                }
            }
            let ghost ds = if neg {
                s@.drop_first()
            } else {
                s@
            };
            // A decimal point anywhere rejects the literal before anything
            // else is diagnosed.
            let mut i: usize = start;
            while i < cs.len()
                invariant
                    start <= i <= cs@.len(),
                    cs@ == s@,
                    start == if neg { 1int } else { 0int },
                    ds == cs@.subrange(start as int, cs@.len() as int),
                    forall|j: int| 0 <= j < i - start ==> ds[j] != '.',
                decreases cs@.len() - i,
            {
                if cs[i] == '.' {
                    proof {
                        assert(0 <= i - start < ds.len() && ds[i - start] == '.');
                        assert(ds.contains('.'));
                    }
                    return Err(NumberError::DecimalPoint);
                }
                i += 1;
            }
            proof {
                assert forall|k: int| 0 <= k < ds.len() implies ds[k] != '.' by {
                    assert(ds[k] != '.');
                }
                assert(!ds.contains('.'));
            }
            parse_digits(&cs, start, 10, Ghost(ds))
        },
        Token::NumberHex(s) => {
            let cs = chars_of(s.as_str());
            proof {
                assert(s@ =~= cs@.subrange(0, cs@.len() as int));
                lemma_digits_value_nonneg(s@, 16);
            }
            parse_digits(&cs, 0, 16, Ghost(s@))
        },
        Token::NumberBinary(s) => {
            let cs = chars_of(s.as_str());
            proof {
                assert(s@ =~= cs@.subrange(0, cs@.len() as int));
                lemma_digits_value_nonneg(s@, 2);
            }
            parse_digits(&cs, 0, 2, Ghost(s@))
        },
        _ => Err(NumberError::NotANumber),
    }
}

/// The digit of a character under a radix, or `None` where the character is
/// no digit of that radix.
fn digit_of(c: char, radix: u32) -> (r: Option<u32>)
    ensures
        match r {
            Some(d) => digit_val(c, radix as int) == Some(d as int),
            None => digit_val(c, radix as int) is None,
        },
{
    if radix == 16 {
        if c >= '0' && c <= '9' {
            Some((c as u32) - 48)
        } else if c >= 'a' && c <= 'f' {
            Some((c as u32) - 87)
        } else {
            None
        }
    } else if radix == 2 {
        if c == '0' || c == '1' {
            Some((c as u32) - 48)
        } else {
            None
        }
    } else {
        if c >= '0' && c <= '9' {
            Some((c as u32) - 48)
        } else {
            None
        }
    }
}

/// Accumulates the digits of `cs` from `start` on under `radix`, yielding
/// the signed 64-bit value of the literal (negative when `start == 1`,
/// which marks a leading minus sign).
fn parse_digits(cs: &Vec<char>, start: usize, radix: u32, Ghost(ds): Ghost<Seq<char>>) -> (r:
    Result<Typing, NumberError>)
    requires
        start <= cs@.len(),
        radix == 10 || radix == 16 || radix == 2,
        ds == cs@.subrange(start as int, cs@.len() as int),
        start == 1 ==> radix == 10 && cs@[0] == '-',
        start == 0 || start == 1,
    ensures
        ({
            let neg = start == 1;
            let v = if neg {
                -digits_value(ds, radix as int)
            } else {
                digits_value(ds, radix as int)
            };
            if !digits_valid(ds, radix as int) {
                r == Err::<Typing, NumberError>(NumberError::InvalidDigit)
            } else if v < -0x8000_0000_0000_0000 || v > 0x7fff_ffff_ffff_ffff {
                r == Err::<Typing, NumberError>(NumberError::TooLarge)
            } else {
                r == Ok::<Typing, NumberError>(Typing::Int64(v as i64))
            }
        }),
{
    let neg = start == 1;
    if cs.len() == start {
        return Err(NumberError::InvalidDigit);
    }
    // Every character must be a digit of the radix before any value is
    // accumulated, so an invalid digit is diagnosed whatever the length.
    let mut i: usize = start;
    while i < cs.len()
        invariant
            start <= i <= cs@.len(),
            radix == 10 || radix == 16 || radix == 2,
            ds == cs@.subrange(start as int, cs@.len() as int),
            forall|j: int| 0 <= j < i - start ==> (#[trigger] digit_val(ds[j], radix as int)) is Some,
        decreases cs@.len() - i,
    {
        assert(ds[i - start] == cs@[i as int]);
        if digit_of(cs[i], radix).is_none() {
            return Err(NumberError::InvalidDigit);
        }
        i += 1;
    }
    proof {
        assert(digits_valid(ds, radix as int));
    }
    let mut m: u128 = 0;
    let mut i: usize = start;
    while i < cs.len()
        invariant
            start <= i <= cs@.len(),
            radix == 10 || radix == 16 || radix == 2,
            ds == cs@.subrange(start as int, cs@.len() as int),
            digits_valid(ds, radix as int),
            m == digits_value(ds.take(i - start), radix as int),
            m <= 0x8000_0000_0000_0000,
        decreases cs@.len() - i,
    {
        let c = cs[i];
        assert(ds[i - start] == c);
        let d = match digit_of(c, radix) {
            Some(d) => d,
            None => 0,
        };
        assert(digit_val(ds[i - start], radix as int) is Some);
        assert(d <= 15);
        proof {
            assert(m * (radix as u128) <= 0x8000_0000_0000_0000 * 16) by (nonlinear_arith)
                requires
                    m <= 0x8000_0000_0000_0000,
                    radix as u128 <= 16,
            ;
        }
        m = m * (radix as u128) + (d as u128);
        proof {
            let p = ds.take(i - start + 1);
            assert(p.drop_last() =~= ds.take(i - start));
            assert(p.last() == ds[i - start]);
        }
        if m > 0x8000_0000_0000_0000 {
            proof {
                lemma_digits_value_prefix(ds, radix as int, i - start + 1);
                assert(digits_value(ds, radix as int) > 0x8000_0000_0000_0000);
            }
            return Err(NumberError::TooLarge);
        }
        i += 1;
    }
    proof {
        assert(ds.take(cs@.len() - start) =~= ds);
    }
    if neg {
        if m == 0x8000_0000_0000_0000 {
            Ok(Typing::Int64(i64::MIN))
        } else {
            Ok(Typing::Int64(-(m as i64)))
        }
    } else {
        if m > 0x7fff_ffff_ffff_ffff {
            Err(NumberError::TooLarge)
        } else {
            Ok(Typing::Int64(m as i64))
        }
    }
}

/// The precedence level a token continues as a binary operator, from 1
/// (boolean or, loosest) to 10 (multiplicative, tightest); `None` for any
/// token that is no binary operator.
pub open spec fn binop_level(t: Token) -> Option<int> {
    match t {
        Token::Or => Some(1int),
        Token::Xor => Some(2int),
        Token::And => Some(3int),
        Token::Equal => Some(4int),
        Token::NotEqual => Some(4int),
        Token::Less => Some(4int),
        Token::LessEqual => Some(4int),
        Token::Greater => Some(4int),
        Token::GreaterEqual => Some(4int),
        Token::BitOr => Some(5int),
        Token::BitXor => Some(6int),
        Token::BitAnd => Some(7int),
        Token::BitShiftLeft => Some(8int),
        Token::BitShiftRight => Some(8int),
        Token::Add => Some(9int),
        Token::Subtract => Some(9int),
        Token::Multiply => Some(10int),
        Token::Divide => Some(10int),
        Token::Modulus => Some(10int),
        _ => None,
    }
}

/// The syntax-tree operator a binary operator token stands for.
pub open spec fn binop_of(t: Token) -> BinaryOperation {
    match t {
        Token::Or => BinaryOperation::BooleanOr,
        Token::Xor => BinaryOperation::BooleanXor,
        Token::And => BinaryOperation::BooleanAnd,
        Token::Equal => BinaryOperation::Equal,
        Token::NotEqual => BinaryOperation::NotEqual,
        Token::Less => BinaryOperation::Less,
        Token::LessEqual => BinaryOperation::LessEqual,
        Token::Greater => BinaryOperation::Greater,
        Token::GreaterEqual => BinaryOperation::GreaterEqual,
        Token::BitOr => BinaryOperation::BitwiseOr,
        Token::BitXor => BinaryOperation::BitwiseXor,
        Token::BitAnd => BinaryOperation::BitwiseAnd,
        Token::BitShiftLeft => BinaryOperation::BitwiseShiftLeft,
        Token::BitShiftRight => BinaryOperation::BitwiseShiftRight,
        Token::Add => BinaryOperation::Add,
        Token::Subtract => BinaryOperation::Subtract,
        Token::Multiply => BinaryOperation::Multiply,
        Token::Divide => BinaryOperation::Divide,
        Token::Modulus => BinaryOperation::Modulus,
        _ => arbitrary(),
    }
}

/// The prefix operator a token stands for in unary position; `None` for any
/// token that starts no unary expression.
pub open spec fn unary_op_of(t: Token) -> Option<UnaryOperation> {
    match t {
        Token::Not => Some(UnaryOperation::BooleanNot),
        Token::BitNegate => Some(UnaryOperation::BitwiseNot),
        Token::Subtract => Some(UnaryOperation::Negate),
        _ => None,
    }
}

/// What parsing a primary expression at index `i` yields: a numeric
/// literal, an identifier, a boolean literal, or a parenthesized
/// sub-expression, together with the index of the first token after it.
pub open spec fn spec_parse_primary(ts: Seq<PosToken>, i: int) -> Result<(PosAst, int), ParseError>
    decreases ts.len() - i, 0int,
{
    if i < 0 || i >= ts.len() {
        Err(ParseError::UnexpectedEnd)
    } else {
        let pt = ts[i];
        match pt.token {
            Token::Ident(id) => Ok(
                (PosAst { ast: Ast::Value(Typing::Ident(id)), pos: pt.pos }, i + 1),
            ),
            Token::True => Ok(
                (PosAst { ast: Ast::Value(Typing::Boolean(true)), pos: pt.pos }, i + 1),
            ),
            Token::False => Ok(
                (PosAst { ast: Ast::Value(Typing::Boolean(false)), pos: pt.pos }, i + 1),
            ),
            Token::LParan => match spec_parse_binary(ts, i + 1, 1) {
                Err(e) => Err(e),
                Ok((inner, j)) => if 0 <= j < ts.len() && ts[j].token is RParan {
                    Ok((inner, j + 1))
                } else {
                    Err(ParseError::UnclosedParenthesis { pos: pt.pos })
                },
            },
            Token::Number(_) => spec_parse_number_primary(pt, i),
            Token::NumberHex(_) => spec_parse_number_primary(pt, i),
            Token::NumberBinary(_) => spec_parse_number_primary(pt, i),
            _ => Err(ParseError::UnexpectedToken { token: pt.token, pos: pt.pos }),
        }
    }
}

/// A numeric literal in primary position: its value as a literal node, or
/// the number fault at the literal's position.
pub open spec fn spec_parse_number_primary(pt: PosToken, i: int) -> Result<
    (PosAst, int),
    ParseError,
> {
    match spec_parse_number(pt.token) {
        Ok(v) => Ok((PosAst { ast: Ast::Value(v), pos: pt.pos }, i + 1)),
        Err(e) => Err(ParseError::Number { error: e, pos: pt.pos }),
    }
}

/// What parsing a unary expression at index `i` yields: prefix operators
/// bind right, so each one applies to the unary expression after it.
pub open spec fn spec_parse_unary(ts: Seq<PosToken>, i: int) -> Result<(PosAst, int), ParseError>
    decreases ts.len() - i, 1int,
{
    if 0 <= i < ts.len() && unary_op_of(ts[i].token) is Some {
        match spec_parse_unary(ts, i + 1) {
            Err(e) => Err(e),
            Ok((operand, j)) => Ok(
                (
                    PosAst {
                        ast: Ast::UnaryOp(unary_op_of(ts[i].token).unwrap(), Box::new(operand)),
                        pos: ts[i].pos,
                    },
                    j,
                ),
            ),
        }
    } else {
        spec_parse_primary(ts, i)
    }
}

/// What parsing at binary precedence level `l` from index `i` yields. The
/// next-tighter level parses the left operand; an operator token of this
/// level is consumed and the same level parses the right operand, which
/// makes chained operators of one level associate to the right; any other
/// token ends the level and returns the left operand unchanged.
pub open spec fn spec_parse_binary(ts: Seq<PosToken>, i: int, l: int) -> Result<
    (PosAst, int),
    ParseError,
>
    decreases ts.len() - i, (if l < 10 { 12 - l } else { 2int }),
{
    let left = if l < 10 {
        spec_parse_binary(ts, i, l + 1)
    } else {
        spec_parse_unary(ts, i)
    };
    match left {
        Err(e) => Err(e),
        Ok((lhs, j)) => if i < j && 0 <= j < ts.len() && binop_level(ts[j].token) == Some(l) {
            match spec_parse_binary(ts, j + 1, l) {
                Err(e) => Err(e),
                Ok((rhs, k)) => Ok(
                    (
                        PosAst {
                            ast: Ast::BinOp(binop_of(ts[j].token), Box::new(lhs), Box::new(rhs)),
                            pos: ts[j].pos,
                        },
                        k,
                    ),
                ),
            }
        } else {
            Ok((lhs, j))
        },
    }
}

/// What parsing a whole token stream yields: one expression wrapped in a
/// root node, with the end marker required right after it.
pub open spec fn spec_parse(ts: Seq<PosToken>) -> Result<PosAst, ParseError> {
    match spec_parse_binary(ts, 0, 1) {
        Err(e) => Err(e),
        Ok((a, j)) => if 0 <= j < ts.len() && ts[j].token is EOF {
            Ok(PosAst { ast: Ast::Root(Box::new(a)), pos: Pos { line: 0, col: 0 } })
        } else if 0 <= j < ts.len() {
            Err(ParseError::ExpectedEof { token: ts[j].token, pos: ts[j].pos })
        } else {
            Err(ParseError::UnexpectedEnd)
        },
    }
}

/// A successful parse consumes at least one token and never runs past the
/// end of the stream.
pub proof fn lemma_parse_advances(ts: Seq<PosToken>, i: int, l: int, kind: int)
    ensures
        kind == 0 ==> (spec_parse_primary(ts, i) matches Ok((a, j)) ==> i < j <= ts.len()),
        kind == 1 ==> (spec_parse_unary(ts, i) matches Ok((a, j)) ==> i < j <= ts.len()),
        kind == 2 ==> (spec_parse_binary(ts, i, l) matches Ok((a, j)) ==> i < j <= ts.len()),
    decreases ts.len() - i, (if kind == 0 { 0int } else if kind == 1 { 1int } else if l < 10 { 12 - l } else { 2int }),
{
    if kind == 0 {
        if 0 <= i < ts.len() && ts[i].token is LParan {
            lemma_parse_advances(ts, i + 1, 1, 2);
        }
    } else if kind == 1 {
        if 0 <= i < ts.len() && unary_op_of(ts[i].token) is Some {
            lemma_parse_advances(ts, i + 1, 0, 1);
        } else {
            lemma_parse_advances(ts, i, 0, 0);
        }
    } else {
        if l < 10 {
            lemma_parse_advances(ts, i, l + 1, 2);
        } else {
            lemma_parse_advances(ts, i, 0, 1);
        }
        let left = if l < 10 {
            spec_parse_binary(ts, i, l + 1)
        } else {
            spec_parse_unary(ts, i)
        };
        match left {
            Ok((lhs, j)) => {
                if i < j && 0 <= j < ts.len() && binop_level(ts[j].token) == Some(l) {
                    lemma_parse_advances(ts, j + 1, l, 2);
                }
            },
            Err(_) => {},
        }
    }
}

/// The parser's cursor over the token stream: random access with lookahead,
/// consuming from front to back.
struct Parser {
    tokens: Vec<PosToken>,
    index: usize,
}

impl Parser {
    spec fn wf(&self) -> bool {
        self.index <= self.tokens@.len()
    }

    fn new(tokens: Vec<PosToken>) -> (r: Self)
        ensures
            r.wf(),
            r.tokens@ == tokens@,
            r.index == 0,
    {
        Self { tokens, index: 0 }
    }

    /// Whether any token is left before the end of the stream.
    fn within(&self) -> (r: bool)
        ensures
            r == (self.index < self.tokens@.len()),
    {
        self.index < self.tokens.len()
    }

    /// The token `offset` positions ahead of the cursor, without consuming.
    fn peek_i(&self, offset: usize) -> (r: Option<&PosToken>)
        requires
            self.wf(),
        ensures
            match r {
                Some(pt) => self.index + offset < self.tokens@.len() && *pt == self.tokens@[self.index
                    + offset],
                None => self.index + offset >= self.tokens@.len(),
            },
    {
        if offset < self.tokens.len() - self.index {
            Some(&self.tokens[self.index + offset])
        } else {
            None
        }
    }

    /// The current token, without consuming.
    fn peek(&self) -> (r: Option<&PosToken>)
        requires
            self.wf(),
        ensures
            match r {
                Some(pt) => self.index < self.tokens@.len() && *pt == self.tokens@[self.index as int],
                None => self.index >= self.tokens@.len(),
            },
    {
        self.peek_i(0)
    }

    /// Consumes and returns the current token, advancing the cursor.
    fn get(&mut self) -> (r: Option<&PosToken>)
        requires
            old(self).wf(),
        ensures
            final(self).wf(),
            final(self).tokens@ == old(self).tokens@,
            match r {
                Some(pt) => old(self).index < old(self).tokens@.len() && final(self).index == old(
                    self,
                ).index + 1 && *pt == old(self).tokens@[old(self).index as int],
                None => old(self).index >= old(self).tokens@.len() && final(self).index == old(
                    self,
                ).index,
            },
    {
        if self.index < self.tokens.len() {
            let i = self.index;
            self.index = i + 1;
            Some(&self.tokens[i])
        } else {
            None
        }
    }

    /// Skips the current token.
    fn skip(&mut self)
        requires
            old(self).wf(),
            old(self).index < old(self).tokens@.len(),
        ensures
            final(self).wf(),
            final(self).tokens@ == old(self).tokens@,
            final(self).index == old(self).index + 1,
    {
        self.skip_i(1);
    }

    /// Skips `i` tokens.
    fn skip_i(&mut self, i: usize)
        requires
            old(self).wf(),
            old(self).index + i <= old(self).tokens@.len(),
        ensures
            final(self).wf(),
            final(self).tokens@ == old(self).tokens@,
            final(self).index == old(self).index + i,
    {
        let n = self.tokens.len();
        assert(self.index + i <= n);
        self.index += i;
    }
}

/// How an executable level function must relate to its level's parse
/// specification: on success it returns the specified node and leaves the
/// cursor at the specified index; on failure it returns the specified
/// fault.
spec fn parse_post(
    p1: Parser,
    r: Result<PosAst, ParseError>,
    spec_r: Result<(PosAst, int), ParseError>,
) -> bool {
    match spec_r {
        Ok((a, j)) => r == Ok::<PosAst, ParseError>(a) && p1.index == j,
        Err(e) => r == Err::<PosAst, ParseError>(e),
    }
}

/// Turns a token stream into one expression wrapped in a root node, or
/// fails with a position-tagged syntax fault. The end marker must follow
/// the expression.
pub fn parse(tokens: Vec<PosToken>) -> (r: Result<PosAst, ParseError>)
    ensures
        r == spec_parse(tokens@),
{
    let mut parser = Parser::new(tokens);
    let ast = match p_expression(&mut parser) {
        Err(e) => {
            return Err(e);
        },
        Ok(a) => a,
    };
    let outcome: Option<Option<(Token, Pos)>> = match parser.peek() {
        Some(pt) => match &pt.token {
            Token::EOF => Some(None),
            _ => Some(Some((pt.token.duplicate(), pt.pos))),
        },
        None => None,
    };
    match outcome {
        Some(None) => Ok(PosAst::new(Ast::Root(Box::new(ast)), Pos::new(0, 0))),
        Some(Some((token, pos))) => Err(ParseError::ExpectedEof { token, pos }),
        None => Err(ParseError::UnexpectedEnd),
    }
}

/// Parses a whole expression: the loosest level.
fn p_expression(parser: &mut Parser) -> (r: Result<PosAst, ParseError>)
    requires
        old(parser).wf(),
    ensures
        final(parser).wf(),
        final(parser).tokens@ == old(parser).tokens@,
        parse_post(
            *final(parser),
            r,
            spec_parse_binary(old(parser).tokens@, old(parser).index as int, 1),
        ),
    decreases old(parser).tokens@.len() - old(parser).index, 12int,
{
    p_boolor(parser)
}

/// Parses the boolean-or level.
fn p_boolor(parser: &mut Parser) -> (r: Result<PosAst, ParseError>)
    requires
        old(parser).wf(),
    ensures
        final(parser).wf(),
        final(parser).tokens@ == old(parser).tokens@,
        parse_post(
            *final(parser),
            r,
            spec_parse_binary(old(parser).tokens@, old(parser).index as int, 1),
        ),
    decreases old(parser).tokens@.len() - old(parser).index, 11int,
{
    let ghost ts = old(parser).tokens@;
    let ghost i0 = old(parser).index as int;
    let expr = match p_boolxor(parser) {
        Err(e) => {
            return Err(e);
        },
        Ok(a) => a,
    };
    proof {
        lemma_parse_advances(ts, i0, 2, 2);
    }
    let (op, pos) = match parser.peek() {
        Some(pt) => (
            match &pt.token {
                Token::Or => Some(BinaryOperation::BooleanOr),
                _ => None,
            },
            pt.pos,
        ),
        None => (None, Pos::new(0, 0)),
    };
    match op {
        Some(op) => {
            parser.skip();
            match p_boolor(parser) {
                Err(e) => Err(e),
                Ok(rhs) => Ok(PosAst::new(Ast::BinOp(op, Box::new(expr), Box::new(rhs)), pos)),
            }
        },
        None => Ok(expr),
    }
}

/// Parses the boolean-xor level.
fn p_boolxor(parser: &mut Parser) -> (r: Result<PosAst, ParseError>)
    requires
        old(parser).wf(),
    ensures
        final(parser).wf(),
        final(parser).tokens@ == old(parser).tokens@,
        parse_post(
            *final(parser),
            r,
            spec_parse_binary(old(parser).tokens@, old(parser).index as int, 2),
        ),
    decreases old(parser).tokens@.len() - old(parser).index, 10int,
{
    let ghost ts = old(parser).tokens@;
    let ghost i0 = old(parser).index as int;
    let expr = match p_booland(parser) {
        Err(e) => {
            return Err(e);
        },
        Ok(a) => a,
    };
    proof {
        lemma_parse_advances(ts, i0, 3, 2);
    }
    let (op, pos) = match parser.peek() {
        Some(pt) => (
            match &pt.token {
                Token::Xor => Some(BinaryOperation::BooleanXor),
                _ => None,
            },
            pt.pos,
        ),
        None => (None, Pos::new(0, 0)),
    };
    match op {
        Some(op) => {
            parser.skip();
            match p_boolxor(parser) {
                Err(e) => Err(e),
                Ok(rhs) => Ok(PosAst::new(Ast::BinOp(op, Box::new(expr), Box::new(rhs)), pos)),
            }
        },
        None => Ok(expr),
    }
}

/// Parses the boolean-and level.
fn p_booland(parser: &mut Parser) -> (r: Result<PosAst, ParseError>)
    requires
        old(parser).wf(),
    ensures
        final(parser).wf(),
        final(parser).tokens@ == old(parser).tokens@,
        parse_post(
            *final(parser),
            r,
            spec_parse_binary(old(parser).tokens@, old(parser).index as int, 3),
        ),
    decreases old(parser).tokens@.len() - old(parser).index, 9int,
{
    let ghost ts = old(parser).tokens@;
    let ghost i0 = old(parser).index as int;
    let expr = match p_compare(parser) {
        Err(e) => {
            return Err(e);
        },
        Ok(a) => a,
    };
    proof {
        lemma_parse_advances(ts, i0, 4, 2);
    }
    let (op, pos) = match parser.peek() {
        Some(pt) => (
            match &pt.token {
                Token::And => Some(BinaryOperation::BooleanAnd),
                _ => None,
            },
            pt.pos,
        ),
        None => (None, Pos::new(0, 0)),
    };
    match op {
        Some(op) => {
            parser.skip();
            match p_booland(parser) {
                Err(e) => Err(e),
                Ok(rhs) => Ok(PosAst::new(Ast::BinOp(op, Box::new(expr), Box::new(rhs)), pos)),
            }
        },
        None => Ok(expr),
    }
}

/// Parses the comparison level.
fn p_compare(parser: &mut Parser) -> (r: Result<PosAst, ParseError>)
    requires
        old(parser).wf(),
    ensures
        final(parser).wf(),
        final(parser).tokens@ == old(parser).tokens@,
        parse_post(
            *final(parser),
            r,
            spec_parse_binary(old(parser).tokens@, old(parser).index as int, 4),
        ),
    decreases old(parser).tokens@.len() - old(parser).index, 8int,
{
    let ghost ts = old(parser).tokens@;
    let ghost i0 = old(parser).index as int;
    let expr = match p_bitor(parser) {
        Err(e) => {
            return Err(e);
        },
        Ok(a) => a,
    };
    proof {
        lemma_parse_advances(ts, i0, 5, 2);
    }
    let (op, pos) = match parser.peek() {
        Some(pt) => (
            match &pt.token {
                Token::Equal => Some(BinaryOperation::Equal),
                Token::NotEqual => Some(BinaryOperation::NotEqual),
                Token::Less => Some(BinaryOperation::Less),
                Token::LessEqual => Some(BinaryOperation::LessEqual),
                Token::Greater => Some(BinaryOperation::Greater),
                Token::GreaterEqual => Some(BinaryOperation::GreaterEqual),
                _ => None,
            },
            pt.pos,
        ),
        None => (None, Pos::new(0, 0)),
    };
    match op {
        Some(op) => {
            parser.skip();
            match p_compare(parser) {
                Err(e) => Err(e),
                Ok(rhs) => Ok(PosAst::new(Ast::BinOp(op, Box::new(expr), Box::new(rhs)), pos)),
            }
        },
        None => Ok(expr),
    }
}

/// Parses the bitwise-or level.
fn p_bitor(parser: &mut Parser) -> (r: Result<PosAst, ParseError>)
    requires
        old(parser).wf(),
    ensures
        final(parser).wf(),
        final(parser).tokens@ == old(parser).tokens@,
        parse_post(
            *final(parser),
            r,
            spec_parse_binary(old(parser).tokens@, old(parser).index as int, 5),
        ),
    decreases old(parser).tokens@.len() - old(parser).index, 7int,
{
    let ghost ts = old(parser).tokens@;
    let ghost i0 = old(parser).index as int;
    let expr = match p_bitxor(parser) {
        Err(e) => {
            return Err(e);
        },
        Ok(a) => a,
    };
    proof {
        lemma_parse_advances(ts, i0, 6, 2);
    }
    let (op, pos) = match parser.peek() {
        Some(pt) => (
            match &pt.token {
                Token::BitOr => Some(BinaryOperation::BitwiseOr),
                _ => None,
            },
            pt.pos,
        ),
        None => (None, Pos::new(0, 0)),
    };
    match op {
        Some(op) => {
            parser.skip();
            match p_bitor(parser) {
                Err(e) => Err(e),
                Ok(rhs) => Ok(PosAst::new(Ast::BinOp(op, Box::new(expr), Box::new(rhs)), pos)),
            }
        },
        None => Ok(expr),
    }
}

/// Parses the bitwise-xor level.
fn p_bitxor(parser: &mut Parser) -> (r: Result<PosAst, ParseError>)
    requires
        old(parser).wf(),
    ensures
        final(parser).wf(),
        final(parser).tokens@ == old(parser).tokens@,
        parse_post(
            *final(parser),
            r,
            spec_parse_binary(old(parser).tokens@, old(parser).index as int, 6),
        ),
    decreases old(parser).tokens@.len() - old(parser).index, 6int,
{
    let ghost ts = old(parser).tokens@;
    let ghost i0 = old(parser).index as int;
    let expr = match p_bitand(parser) {
        Err(e) => {
            return Err(e);
        },
        Ok(a) => a,
    };
    proof {
        lemma_parse_advances(ts, i0, 7, 2);
    }
    let (op, pos) = match parser.peek() {
        Some(pt) => (
            match &pt.token {
                Token::BitXor => Some(BinaryOperation::BitwiseXor),
                _ => None,
            },
            pt.pos,
        ),
        None => (None, Pos::new(0, 0)),
    };
    match op {
        Some(op) => {
            parser.skip();
            match p_bitxor(parser) {
                Err(e) => Err(e),
                Ok(rhs) => Ok(PosAst::new(Ast::BinOp(op, Box::new(expr), Box::new(rhs)), pos)),
            }
        },
        None => Ok(expr),
    }
}

/// Parses the bitwise-and level.
fn p_bitand(parser: &mut Parser) -> (r: Result<PosAst, ParseError>)
    requires
        old(parser).wf(),
    ensures
        final(parser).wf(),
        final(parser).tokens@ == old(parser).tokens@,
        parse_post(
            *final(parser),
            r,
            spec_parse_binary(old(parser).tokens@, old(parser).index as int, 7),
        ),
    decreases old(parser).tokens@.len() - old(parser).index, 5int,
{
    let ghost ts = old(parser).tokens@;
    let ghost i0 = old(parser).index as int;
    let expr = match p_bitshift(parser) {
        Err(e) => {
            return Err(e);
        },
        Ok(a) => a,
    };
    proof {
        lemma_parse_advances(ts, i0, 8, 2);
    }
    let (op, pos) = match parser.peek() {
        Some(pt) => (
            match &pt.token {
                Token::BitAnd => Some(BinaryOperation::BitwiseAnd),
                _ => None,
            },
            pt.pos,
        ),
        None => (None, Pos::new(0, 0)),
    };
    match op {
        Some(op) => {
            parser.skip();
            match p_bitand(parser) {
                Err(e) => Err(e),
                Ok(rhs) => Ok(PosAst::new(Ast::BinOp(op, Box::new(expr), Box::new(rhs)), pos)),
            }
        },
        None => Ok(expr),
    }
}

/// Parses the bit-shift level.
fn p_bitshift(parser: &mut Parser) -> (r: Result<PosAst, ParseError>)
    requires
        old(parser).wf(),
    ensures
        final(parser).wf(),
        final(parser).tokens@ == old(parser).tokens@,
        parse_post(
            *final(parser),
            r,
            spec_parse_binary(old(parser).tokens@, old(parser).index as int, 8),
        ),
    decreases old(parser).tokens@.len() - old(parser).index, 4int,
{
    let ghost ts = old(parser).tokens@;
    let ghost i0 = old(parser).index as int;
    let expr = match p_additive(parser) {
        Err(e) => {
            return Err(e);
        },
        Ok(a) => a,
    };
    proof {
        lemma_parse_advances(ts, i0, 9, 2);
    }
    let (op, pos) = match parser.peek() {
        Some(pt) => (
            match &pt.token {
                Token::BitShiftLeft => Some(BinaryOperation::BitwiseShiftLeft),
                Token::BitShiftRight => Some(BinaryOperation::BitwiseShiftRight),
                _ => None,
            },
            pt.pos,
        ),
        None => (None, Pos::new(0, 0)),
    };
    match op {
        Some(op) => {
            parser.skip();
            match p_bitshift(parser) {
                Err(e) => Err(e),
                Ok(rhs) => Ok(PosAst::new(Ast::BinOp(op, Box::new(expr), Box::new(rhs)), pos)),
            }
        },
        None => Ok(expr),
    }
}

/// Parses the additive level.
fn p_additive(parser: &mut Parser) -> (r: Result<PosAst, ParseError>)
    requires
        old(parser).wf(),
    ensures
        final(parser).wf(),
        final(parser).tokens@ == old(parser).tokens@,
        parse_post(
            *final(parser),
            r,
            spec_parse_binary(old(parser).tokens@, old(parser).index as int, 9),
        ),
    decreases old(parser).tokens@.len() - old(parser).index, 3int,
{
    let ghost ts = old(parser).tokens@;
    let ghost i0 = old(parser).index as int;
    let expr = match p_multiplicative(parser) {
        Err(e) => {
            return Err(e);
        },
        Ok(a) => a,
    };
    proof {
        lemma_parse_advances(ts, i0, 10, 2);
    }
    let (op, pos) = match parser.peek() {
        Some(pt) => (
            match &pt.token {
                Token::Add => Some(BinaryOperation::Add),
                Token::Subtract => Some(BinaryOperation::Subtract),
                _ => None,
            },
            pt.pos,
        ),
        None => (None, Pos::new(0, 0)),
    };
    match op {
        Some(op) => {
            parser.skip();
            match p_additive(parser) {
                Err(e) => Err(e),
                Ok(rhs) => Ok(PosAst::new(Ast::BinOp(op, Box::new(expr), Box::new(rhs)), pos)),
            }
        },
        None => Ok(expr),
    }
}

/// Parses the multiplicative level.
fn p_multiplicative(parser: &mut Parser) -> (r: Result<PosAst, ParseError>)
    requires
        old(parser).wf(),
    ensures
        final(parser).wf(),
        final(parser).tokens@ == old(parser).tokens@,
        parse_post(
            *final(parser),
            r,
            spec_parse_binary(old(parser).tokens@, old(parser).index as int, 10),
        ),
    decreases old(parser).tokens@.len() - old(parser).index, 2int,
{
    let ghost ts = old(parser).tokens@;
    let ghost i0 = old(parser).index as int;
    let expr = match p_unary(parser) {
        Err(e) => {
            return Err(e);
        },
        Ok(a) => a,
    };
    proof {
        lemma_parse_advances(ts, i0, 0, 1);
    }
    let (op, pos) = match parser.peek() {
        Some(pt) => (
            match &pt.token {
                Token::Multiply => Some(BinaryOperation::Multiply),
                Token::Divide => Some(BinaryOperation::Divide),
                Token::Modulus => Some(BinaryOperation::Modulus),
                _ => None,
            },
            pt.pos,
        ),
        None => (None, Pos::new(0, 0)),
    };
    match op {
        Some(op) => {
            parser.skip();
            match p_multiplicative(parser) {
                Err(e) => Err(e),
                Ok(rhs) => Ok(PosAst::new(Ast::BinOp(op, Box::new(expr), Box::new(rhs)), pos)),
            }
        },
        None => Ok(expr),
    }
}

/// Parses a unary expression: prefix operators bind right.
fn p_unary(parser: &mut Parser) -> (r: Result<PosAst, ParseError>)
    requires
        old(parser).wf(),
    ensures
        final(parser).wf(),
        final(parser).tokens@ == old(parser).tokens@,
        parse_post(
            *final(parser),
            r,
            spec_parse_unary(old(parser).tokens@, old(parser).index as int),
        ),
    decreases old(parser).tokens@.len() - old(parser).index, 1int,
{
    let (op, pos) = match parser.peek() {
        Some(pt) => (
            match &pt.token {
                Token::Not => Some(UnaryOperation::BooleanNot),
                Token::BitNegate => Some(UnaryOperation::BitwiseNot),
                Token::Subtract => Some(UnaryOperation::Negate),
                _ => None,
            },
            pt.pos,
        ),
        None => (None, Pos::new(0, 0)),
    };
    match op {
        Some(op) => {
            parser.skip();
            match p_unary(parser) {
                Err(e) => Err(e),
                Ok(operand) => Ok(PosAst::new(Ast::UnaryOp(op, Box::new(operand)), pos)),
            }
        },
        None => p_primary(parser),
    }
}

/// What the current token opens in primary position, extracted so the
/// cursor is free to advance afterwards.
enum PrimaryStart {
    AnIdent(String),
    ABool(bool),
    AParen,
    ANumber(Result<Typing, NumberError>),
    AnUnexpected(Token),
    AnEnd,
}

/// Parses a primary expression: a numeric literal, an identifier, a boolean
/// literal, or a parenthesized sub-expression; any other leading token is a
/// syntax fault naming that token and its position.
fn p_primary(parser: &mut Parser) -> (r: Result<PosAst, ParseError>)
    requires
        old(parser).wf(),
    ensures
        final(parser).wf(),
        final(parser).tokens@ == old(parser).tokens@,
        parse_post(
            *final(parser),
            r,
            spec_parse_primary(old(parser).tokens@, old(parser).index as int),
        ),
    decreases old(parser).tokens@.len() - old(parser).index, 0int,
{
    let ghost ts = old(parser).tokens@;
    let ghost i0 = old(parser).index as int;
    let (d, pos) = match parser.peek() {
        Some(pt) => (
            match &pt.token {
                Token::Ident(id) => PrimaryStart::AnIdent(crate::clone_string(id)),
                Token::True => PrimaryStart::ABool(true),
                Token::False => PrimaryStart::ABool(false),
                Token::LParan => PrimaryStart::AParen,
                Token::Number(_) => PrimaryStart::ANumber(parse_number(&pt.token)),
                Token::NumberHex(_) => PrimaryStart::ANumber(parse_number(&pt.token)),
                Token::NumberBinary(_) => PrimaryStart::ANumber(parse_number(&pt.token)),
                _ => PrimaryStart::AnUnexpected(pt.token.duplicate()),
            },
            pt.pos,
        ),
        None => (PrimaryStart::AnEnd, Pos::new(0, 0)),
    };
    match d {
        PrimaryStart::AnEnd => Err(ParseError::UnexpectedEnd),
        PrimaryStart::AnIdent(id) => {
            parser.skip();
            Ok(PosAst::new(Ast::Value(Typing::Ident(id)), pos))
        },
        PrimaryStart::ABool(b) => {
            parser.skip();
            Ok(PosAst::new(Ast::Value(Typing::Boolean(b)), pos))
        },
        PrimaryStart::ANumber(res) => match res {
            Ok(v) => {
                parser.skip();
                Ok(PosAst::new(Ast::Value(v), pos))
            },
            Err(e) => Err(ParseError::Number { error: e, pos }),
        },
        PrimaryStart::AnUnexpected(token) => Err(ParseError::UnexpectedToken { token, pos }),
        PrimaryStart::AParen => {
            parser.skip();
            match p_expression(parser) {
                Err(e) => Err(e),
                Ok(inner) => {
                    proof {
                        lemma_parse_advances(ts, i0 + 1, 1, 2);
                    }
                    let closed = match parser.peek() {
                        Some(pt2) => match &pt2.token {
                            Token::RParan => true,
                            _ => false,
                        },
                        None => false,
                    };
                    if closed {
                        parser.skip();
                        Ok(inner)
                    } else {
                        Err(ParseError::UnclosedParenthesis { pos })
                    }
                },
            }
        },
    }
}

} // verus!

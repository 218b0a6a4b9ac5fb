//! A tree-walking evaluator: walks the syntax tree against an environment
//! and produces a typed value, or signals a recoverable runtime fault
//! carrying the offending node's position.

use vstd::prelude::*;
use crate::Pos;
use crate::ast::{Ast, BinaryOperation, Ident, PosAst, Typing, TypingV, UnaryOperation};
use crate::environment::{env_lookup, Environment};

verus! {

/// A runtime fault: recoverable, position-tagged, returned as a result
/// value rather than aborting, so a driver can report and continue.
#[derive(Debug, PartialEq, Eq)]
pub enum RuntimeError {
    /// The identifier is bound in no frame of the environment.
    NotFound { id: Ident, pos: Pos },
    /// The prefix operator was applied to an operand it is not defined on.
    TypeMismatchUnary { op: UnaryOperation, pos: Pos },
    /// The binary operator was applied to an operand pair it is not
    /// defined on.
    TypeMismatchBinary { op: BinaryOperation, pos: Pos },
    /// Division or remainder with a zero divisor.
    DivisionByZero { op: BinaryOperation, pos: Pos },
    /// An assignment whose child produced no value to bind.
    NoValue { pos: Pos },
}

/// How applying an operator to typed values can fail; the evaluator adds
/// the operator and node position.
#[derive(Debug, PartialEq, Eq, Copy, Clone)]
pub enum BinFault {
    TypeMismatch,
    DivisionByZero,
}

/// What a binary operator yields on two signed 64-bit operands: wrapping
/// arithmetic, truncated division and remainder (zero divisors fault,
/// the one overflowing quotient wraps), comparisons, bitwise operations,
/// and shifts by the low six bits of the right operand.
pub open spec fn spec_bin_i64(op: BinaryOperation, x: i64, y: i64) -> Result<TypingV, BinFault> {
    match op {
        BinaryOperation::Add => Ok(TypingV::Int64(x.wrapping_add(y))),
        BinaryOperation::Subtract => Ok(TypingV::Int64(x.wrapping_sub(y))),
        BinaryOperation::Multiply => Ok(TypingV::Int64(x.wrapping_mul(y))),
        BinaryOperation::Divide => if y == 0 {
            Err(BinFault::DivisionByZero)
        } else {
            Ok(
                TypingV::Int64(
                    match x.checked_div(y) {
                        Some(q) => q,
                        None => i64::MIN,
                    },
                ),
            )
        },
        BinaryOperation::Modulus => if y == 0 {
            Err(BinFault::DivisionByZero)
        } else {
            Ok(
                TypingV::Int64(
                    match x.checked_rem(y) {
                        Some(m) => m,
                        None => 0i64,
                    },
                ),
            )
        },
        BinaryOperation::Equal => Ok(TypingV::Boolean(x == y)),
        BinaryOperation::NotEqual => Ok(TypingV::Boolean(x != y)),
        BinaryOperation::Less => Ok(TypingV::Boolean(x < y)),
        BinaryOperation::LessEqual => Ok(TypingV::Boolean(x <= y)),
        BinaryOperation::Greater => Ok(TypingV::Boolean(x > y)),
        BinaryOperation::GreaterEqual => Ok(TypingV::Boolean(x >= y)),
        BinaryOperation::BitwiseAnd => Ok(TypingV::Int64(x & y)),
        BinaryOperation::BitwiseOr => Ok(TypingV::Int64(x | y)),
        BinaryOperation::BitwiseXor => Ok(TypingV::Int64(x ^ y)),
        BinaryOperation::BitwiseShiftLeft => Ok(TypingV::Int64(x.wrapping_shl((y & 63) as u32))),
        BinaryOperation::BitwiseShiftRight => Ok(TypingV::Int64(x.wrapping_shr((y & 63) as u32))),
        _ => Err(BinFault::TypeMismatch),
    }
}

/// What a binary operator yields on two unsigned 64-bit operands.
pub open spec fn spec_bin_u64(op: BinaryOperation, x: u64, y: u64) -> Result<TypingV, BinFault> {
    match op {
        BinaryOperation::Add => Ok(TypingV::UInt64(x.wrapping_add(y))),
        BinaryOperation::Subtract => Ok(TypingV::UInt64(x.wrapping_sub(y))),
        BinaryOperation::Multiply => Ok(TypingV::UInt64(x.wrapping_mul(y))),
        BinaryOperation::Divide => if y == 0 {
            Err(BinFault::DivisionByZero)
        } else {
            Ok(TypingV::UInt64((x / y) as u64))
        },
        BinaryOperation::Modulus => if y == 0 {
            Err(BinFault::DivisionByZero)
        } else {
            Ok(TypingV::UInt64((x % y) as u64))
        },
        BinaryOperation::Equal => Ok(TypingV::Boolean(x == y)),
        BinaryOperation::NotEqual => Ok(TypingV::Boolean(x != y)),
        BinaryOperation::Less => Ok(TypingV::Boolean(x < y)),
        BinaryOperation::LessEqual => Ok(TypingV::Boolean(x <= y)),
        BinaryOperation::Greater => Ok(TypingV::Boolean(x > y)),
        BinaryOperation::GreaterEqual => Ok(TypingV::Boolean(x >= y)),
        BinaryOperation::BitwiseAnd => Ok(TypingV::UInt64(x & y)),
        BinaryOperation::BitwiseOr => Ok(TypingV::UInt64(x | y)),
        BinaryOperation::BitwiseXor => Ok(TypingV::UInt64(x ^ y)),
        BinaryOperation::BitwiseShiftLeft => Ok(TypingV::UInt64(x.wrapping_shl((y & 63) as u32))),
        BinaryOperation::BitwiseShiftRight => Ok(TypingV::UInt64(x.wrapping_shr((y & 63) as u32))),
        _ => Err(BinFault::TypeMismatch),
    }
}

/// What a binary operator yields on two unsigned 8-bit operands.
pub open spec fn spec_bin_u8(op: BinaryOperation, x: u8, y: u8) -> Result<TypingV, BinFault> {
    match op {
        BinaryOperation::Add => Ok(TypingV::UInt8(x.wrapping_add(y))),
        BinaryOperation::Subtract => Ok(TypingV::UInt8(x.wrapping_sub(y))),
        BinaryOperation::Multiply => Ok(TypingV::UInt8(x.wrapping_mul(y))),
        BinaryOperation::Divide => if y == 0 {
            Err(BinFault::DivisionByZero)
        } else {
            Ok(TypingV::UInt8((x / y) as u8))
        },
        BinaryOperation::Modulus => if y == 0 {
            Err(BinFault::DivisionByZero)
        } else {
            Ok(TypingV::UInt8((x % y) as u8))
        },
        BinaryOperation::Equal => Ok(TypingV::Boolean(x == y)),
        BinaryOperation::NotEqual => Ok(TypingV::Boolean(x != y)),
        BinaryOperation::Less => Ok(TypingV::Boolean(x < y)),
        BinaryOperation::LessEqual => Ok(TypingV::Boolean(x <= y)),
        BinaryOperation::Greater => Ok(TypingV::Boolean(x > y)),
        BinaryOperation::GreaterEqual => Ok(TypingV::Boolean(x >= y)),
        BinaryOperation::BitwiseAnd => Ok(TypingV::UInt8(x & y)),
        BinaryOperation::BitwiseOr => Ok(TypingV::UInt8(x | y)),
        BinaryOperation::BitwiseXor => Ok(TypingV::UInt8(x ^ y)),
        BinaryOperation::BitwiseShiftLeft => Ok(TypingV::UInt8(x.wrapping_shl((y & 7) as u32))),
        BinaryOperation::BitwiseShiftRight => Ok(TypingV::UInt8(x.wrapping_shr((y & 7) as u32))),
        _ => Err(BinFault::TypeMismatch),
    }
}

/// What a binary operator yields on two booleans: the boolean connectives
/// (both operands always already evaluated, so no short-circuiting is
/// observable) and the two equality comparisons.
pub open spec fn spec_bin_bool(op: BinaryOperation, x: bool, y: bool) -> Result<TypingV, BinFault> {
    match op {
        BinaryOperation::BooleanAnd => Ok(TypingV::Boolean(x && y)),
        BinaryOperation::BooleanXor => Ok(TypingV::Boolean(x != y)),
        BinaryOperation::BooleanOr => Ok(TypingV::Boolean(x || y)),
        BinaryOperation::Equal => Ok(TypingV::Boolean(x == y)),
        BinaryOperation::NotEqual => Ok(TypingV::Boolean(x != y)),
        _ => Err(BinFault::TypeMismatch),
    }
}

/// What a binary operator yields on two characters: the comparisons, by
/// code point.
pub open spec fn spec_bin_char(op: BinaryOperation, x: char, y: char) -> Result<TypingV, BinFault> {
    match op {
        BinaryOperation::Equal => Ok(TypingV::Boolean(x == y)),
        BinaryOperation::NotEqual => Ok(TypingV::Boolean(x != y)),
        BinaryOperation::Less => Ok(TypingV::Boolean(x < y)),
        BinaryOperation::LessEqual => Ok(TypingV::Boolean(x <= y)),
        BinaryOperation::Greater => Ok(TypingV::Boolean(x > y)),
        BinaryOperation::GreaterEqual => Ok(TypingV::Boolean(x >= y)),
        _ => Err(BinFault::TypeMismatch),
    }
}

/// Dispatch on the operator and both operand kinds: arithmetic, bitwise
/// and shift operators require operands of one integer kind and produce
/// that kind; comparisons require comparable same-kind operands and
/// produce a boolean; the boolean connectives require booleans; any
/// unmatched combination is a type mismatch.
pub open spec fn spec_apply_binary(op: BinaryOperation, a: TypingV, b: TypingV) -> Result<
    TypingV,
    BinFault,
> {
    match (a, b) {
        (TypingV::Int64(x), TypingV::Int64(y)) => spec_bin_i64(op, x, y),
        (TypingV::UInt64(x), TypingV::UInt64(y)) => spec_bin_u64(op, x, y),
        (TypingV::UInt8(x), TypingV::UInt8(y)) => spec_bin_u8(op, x, y),
        (TypingV::Boolean(x), TypingV::Boolean(y)) => spec_bin_bool(op, x, y),
        (TypingV::Character(x), TypingV::Character(y)) => spec_bin_char(op, x, y),
        _ => Err(BinFault::TypeMismatch),
    }
}

/// What a prefix operator yields: negate on a signed 64-bit integer
/// (wrapping), boolean not on a boolean, bitwise not on any integer kind;
/// any other operand is a type mismatch.
pub open spec fn spec_apply_unary(op: UnaryOperation, v: TypingV) -> Result<TypingV, BinFault> {
    match (op, v) {
        (UnaryOperation::Negate, TypingV::Int64(x)) => Ok(TypingV::Int64((0i64).wrapping_sub(x))),
        (UnaryOperation::BooleanNot, TypingV::Boolean(b)) => Ok(TypingV::Boolean(!b)),
        (UnaryOperation::BitwiseNot, TypingV::Int64(x)) => Ok(TypingV::Int64(x ^ -1i64)),
        (UnaryOperation::BitwiseNot, TypingV::UInt64(x)) => Ok(
            TypingV::UInt64(x ^ 0xffff_ffff_ffff_ffffu64),
        ),
        (UnaryOperation::BitwiseNot, TypingV::UInt8(x)) => Ok(TypingV::UInt8(x ^ 0xffu8)),
        _ => Err(BinFault::TypeMismatch),
    }
}

/// The mathematical value of an optional result value.
pub open spec fn opt_view(v: Option<Typing>) -> Option<TypingV> {
    match v {
        Some(t) => Some(t@),
        None => None,
    }
}

/// What evaluating a node against an environment yields, together with the
/// environment it leaves behind. Evaluation is a function of the node and
/// the environment's bindings alone, which is the determinism of the
/// evaluator.
pub open spec fn spec_eval(node: PosAst, env: Seq<Map<Seq<char>, TypingV>>) -> (Result<
    Option<TypingV>,
    RuntimeError,
>, Seq<Map<Seq<char>, TypingV>>)
    decreases node,
{
    match node.ast {
        Ast::Root(b) => spec_eval(*b, env),
        Ast::Block(children) => {
            let (r, env2) = spec_eval_block(children@, env.push(Map::empty()));
            (r, env2.drop_last())
        },
        Ast::UnaryOp(op, b) => {
            let (r, env1) = spec_eval(*b, env);
            match r {
                Err(e) => (Err(e), env1),
                Ok(None) => (Err(RuntimeError::TypeMismatchUnary { op, pos: node.pos }), env1),
                Ok(Some(v)) => (
                    match spec_apply_unary(op, v) {
                        Ok(w) => Ok(Some(w)),
                        Err(_) => Err(RuntimeError::TypeMismatchUnary { op, pos: node.pos }),
                    },
                    env1,
                ),
            }
        },
        Ast::BinOp(op, a, b) => {
            let (r1, env1) = spec_eval(*a, env);
            match r1 {
                Err(e) => (Err(e), env1),
                Ok(v1) => {
                    let (r2, env2) = spec_eval(*b, env1);
                    match r2 {
                        Err(e) => (Err(e), env2),
                        Ok(v2) => match (v1, v2) {
                            (Some(x), Some(y)) => (
                                match spec_apply_binary(op, x, y) {
                                    Ok(w) => Ok(Some(w)),
                                    Err(BinFault::TypeMismatch) => Err(
                                        RuntimeError::TypeMismatchBinary { op, pos: node.pos },
                                    ),
                                    Err(BinFault::DivisionByZero) => Err(
                                        RuntimeError::DivisionByZero { op, pos: node.pos },
                                    ),
                                },
                                env2,
                            ),
                            _ => (
                                (Err(RuntimeError::TypeMismatchBinary { op, pos: node.pos })),
                                env2,
                            ),
                        },
                    }
                },
            }
        },
        Ast::Assignment(id, b) => {
            let (r, env1) = spec_eval(*b, env);
            match r {
                Err(e) => (Err(e), env1),
                Ok(None) => (Err(RuntimeError::NoValue { pos: node.pos }), env1),
                Ok(Some(v)) => (
                    Ok(Some(v)),
                    env1.update(env1.len() - 1, env1.last().insert(id@, v)),
                ),
            }
        },
        Ast::Value(val) => match val {
            Typing::Ident(id) => match env_lookup(env, id@) {
                Some(v) => (Ok(Some(v)), env),
                None => (Err(RuntimeError::NotFound { id, pos: node.pos }), env),
            },
            _ => (Ok(Some(val@)), env),
        },
    }
}

/// What evaluating a block's children in order yields: each child in turn
/// against the environment the previous one left, the block's value being
/// the value of the final child (no children: no value), stopping at the
/// first fault.
pub open spec fn spec_eval_block(
    children: Seq<PosAst>,
    env: Seq<Map<Seq<char>, TypingV>>,
) -> (Result<Option<TypingV>, RuntimeError>, Seq<Map<Seq<char>, TypingV>>)
    decreases children,
{
    if children.len() == 0 {
        (Ok(None), env)
    } else {
        let (r, env1) = spec_eval(children[0], env);
        match r {
            Err(e) => (Err(e), env1),
            Ok(v) => if children.len() == 1 {
                (Ok(v), env1)
            } else {
                spec_eval_block(children.drop_first(), env1)
            },
        }
    }
}

/// Evaluation leaves the number of frames unchanged: pushes and pops pair
/// up within each block.
pub proof fn lemma_eval_env_len(node: PosAst, env: Seq<Map<Seq<char>, TypingV>>)
    requires
        env.len() >= 1,
    ensures
        spec_eval(node, env).1.len() == env.len(),
    decreases node,
{
    match node.ast {
        Ast::Root(b) => lemma_eval_env_len(*b, env),
        Ast::Block(children) => {
            lemma_eval_block_env_len(children@, env.push(Map::empty()));
        },
        Ast::UnaryOp(op, b) => lemma_eval_env_len(*b, env),
        Ast::BinOp(op, a, b) => {
            lemma_eval_env_len(*a, env);
            lemma_eval_env_len(*b, spec_eval(*a, env).1);
        },
        Ast::Assignment(id, b) => lemma_eval_env_len(*b, env),
        Ast::Value(val) => {},
    }
}

/// Evaluating a block's children leaves the number of frames unchanged.
pub proof fn lemma_eval_block_env_len(children: Seq<PosAst>, env: Seq<Map<Seq<char>, TypingV>>)
    requires
        env.len() >= 1,
    ensures
        spec_eval_block(children, env).1.len() == env.len(),
    decreases children,
{
    if children.len() > 0 {
        lemma_eval_env_len(children[0], env);
        if children.len() > 1 {
            lemma_eval_block_env_len(children.drop_first(), spec_eval(children[0], env).1);
        }
    }
}

/// How an executable evaluation result must relate to the specified one:
/// the same fault, or a value whose mathematical value is the specified
/// one.
pub open spec fn eval_post(
    r: Result<Option<Typing>, RuntimeError>,
    res: Result<Option<TypingV>, RuntimeError>,
) -> bool {
    match r {
        Ok(v) => res == Ok::<Option<TypingV>, RuntimeError>(opt_view(v)),
        Err(e) => res == Err::<Option<TypingV>, RuntimeError>(e),
    }
}

/// Applies a prefix operator to a value.
fn apply_unary(op: UnaryOperation, v: &Typing) -> (r: Result<Typing, BinFault>)
    ensures
        match r {
            Ok(w) => spec_apply_unary(op, v@) == Ok::<TypingV, BinFault>(w@),
            Err(e) => spec_apply_unary(op, v@) == Err::<TypingV, BinFault>(e),
        },
{
    match (op, v) {
        (UnaryOperation::Negate, Typing::Int64(x)) => Ok(Typing::Int64((0i64).wrapping_sub(*x))),
        (UnaryOperation::BooleanNot, Typing::Boolean(b)) => Ok(Typing::Boolean(!*b)),
        (UnaryOperation::BitwiseNot, Typing::Int64(x)) => Ok(Typing::Int64(*x ^ -1i64)),
        (UnaryOperation::BitwiseNot, Typing::UInt64(x)) => Ok(
            Typing::UInt64(*x ^ 0xffff_ffff_ffff_ffffu64),
        ),
        (UnaryOperation::BitwiseNot, Typing::UInt8(x)) => Ok(Typing::UInt8(*x ^ 0xffu8)),
        _ => Err(BinFault::TypeMismatch),
    }
}

/// Applies a binary operator to two values, dispatching on the operator
/// and both operand kinds.
fn apply_binary(op: BinaryOperation, a: &Typing, b: &Typing) -> (r: Result<Typing, BinFault>)
    ensures
        match r {
            Ok(w) => spec_apply_binary(op, a@, b@) == Ok::<TypingV, BinFault>(w@),
            Err(e) => spec_apply_binary(op, a@, b@) == Err::<TypingV, BinFault>(e),
        },
{
    match (a, b) {
        (Typing::Int64(x), Typing::Int64(y)) => bin_i64(op, *x, *y),
        (Typing::UInt64(x), Typing::UInt64(y)) => bin_u64(op, *x, *y),
        (Typing::UInt8(x), Typing::UInt8(y)) => bin_u8(op, *x, *y),
        (Typing::Boolean(x), Typing::Boolean(y)) => bin_bool(op, *x, *y),
        (Typing::Character(x), Typing::Character(y)) => bin_char(op, *x, *y),
        _ => Err(BinFault::TypeMismatch),
    }
}

/// Applies a binary operator to two signed 64-bit integers.
fn bin_i64(op: BinaryOperation, x: i64, y: i64) -> (r: Result<Typing, BinFault>)
    ensures
        match r {
            Ok(w) => spec_bin_i64(op, x, y) == Ok::<TypingV, BinFault>(w@),
            Err(e) => spec_bin_i64(op, x, y) == Err::<TypingV, BinFault>(e),
        },
{
    match op {
        BinaryOperation::Add => Ok(Typing::Int64(x.wrapping_add(y))),
        BinaryOperation::Subtract => Ok(Typing::Int64(x.wrapping_sub(y))),
        BinaryOperation::Multiply => Ok(Typing::Int64(x.wrapping_mul(y))),
        BinaryOperation::Divide => if y == 0 {
            Err(BinFault::DivisionByZero)
        } else {
            Ok(
                Typing::Int64(
                    match x.checked_div(y) {
                        Some(q) => q,
                        None => i64::MIN,
                    },
                ),
            )
        },
        BinaryOperation::Modulus => if y == 0 {
            Err(BinFault::DivisionByZero)
        } else {
            Ok(
                Typing::Int64(
                    match x.checked_rem(y) {
                        Some(m) => m,
                        None => 0i64,
                    },
                ),
            )
        },
        BinaryOperation::Equal => Ok(Typing::Boolean(x == y)),
        BinaryOperation::NotEqual => Ok(Typing::Boolean(x != y)),
        BinaryOperation::Less => Ok(Typing::Boolean(x < y)),
        BinaryOperation::LessEqual => Ok(Typing::Boolean(x <= y)),
        BinaryOperation::Greater => Ok(Typing::Boolean(x > y)),
        BinaryOperation::GreaterEqual => Ok(Typing::Boolean(x >= y)),
        BinaryOperation::BitwiseAnd => Ok(Typing::Int64(x & y)),
        BinaryOperation::BitwiseOr => Ok(Typing::Int64(x | y)),
        BinaryOperation::BitwiseXor => Ok(Typing::Int64(x ^ y)),
        BinaryOperation::BitwiseShiftLeft => Ok(Typing::Int64(x.wrapping_shl((y & 63) as u32))),
        BinaryOperation::BitwiseShiftRight => Ok(Typing::Int64(x.wrapping_shr((y & 63) as u32))),
        _ => Err(BinFault::TypeMismatch),
    }
}

/// Applies a binary operator to two unsigned 64-bit integers.
fn bin_u64(op: BinaryOperation, x: u64, y: u64) -> (r: Result<Typing, BinFault>)
    ensures
        match r {
            Ok(w) => spec_bin_u64(op, x, y) == Ok::<TypingV, BinFault>(w@),
            Err(e) => spec_bin_u64(op, x, y) == Err::<TypingV, BinFault>(e),
        },
{
    match op {
        BinaryOperation::Add => Ok(Typing::UInt64(x.wrapping_add(y))),
        BinaryOperation::Subtract => Ok(Typing::UInt64(x.wrapping_sub(y))),
        BinaryOperation::Multiply => Ok(Typing::UInt64(x.wrapping_mul(y))),
        BinaryOperation::Divide => if y == 0 {
            Err(BinFault::DivisionByZero)
        } else {
            Ok(Typing::UInt64(x / y))
        },
        BinaryOperation::Modulus => if y == 0 {
            Err(BinFault::DivisionByZero)
        } else {
            Ok(Typing::UInt64(x % y))
        },
        BinaryOperation::Equal => Ok(Typing::Boolean(x == y)),
        BinaryOperation::NotEqual => Ok(Typing::Boolean(x != y)),
        BinaryOperation::Less => Ok(Typing::Boolean(x < y)),
        BinaryOperation::LessEqual => Ok(Typing::Boolean(x <= y)),
        BinaryOperation::Greater => Ok(Typing::Boolean(x > y)),
        BinaryOperation::GreaterEqual => Ok(Typing::Boolean(x >= y)),
        BinaryOperation::BitwiseAnd => Ok(Typing::UInt64(x & y)),
        BinaryOperation::BitwiseOr => Ok(Typing::UInt64(x | y)),
        BinaryOperation::BitwiseXor => Ok(Typing::UInt64(x ^ y)),
        BinaryOperation::BitwiseShiftLeft => Ok(Typing::UInt64(x.wrapping_shl((y & 63) as u32))),
        BinaryOperation::BitwiseShiftRight => Ok(Typing::UInt64(x.wrapping_shr((y & 63) as u32))),
        _ => Err(BinFault::TypeMismatch),
    }
}

/// Applies a binary operator to two unsigned 8-bit integers.
fn bin_u8(op: BinaryOperation, x: u8, y: u8) -> (r: Result<Typing, BinFault>)
    ensures
        match r {
            Ok(w) => spec_bin_u8(op, x, y) == Ok::<TypingV, BinFault>(w@),
            Err(e) => spec_bin_u8(op, x, y) == Err::<TypingV, BinFault>(e),
        },
{
    match op {
        BinaryOperation::Add => Ok(Typing::UInt8(x.wrapping_add(y))),
        BinaryOperation::Subtract => Ok(Typing::UInt8(x.wrapping_sub(y))),
        BinaryOperation::Multiply => Ok(Typing::UInt8(x.wrapping_mul(y))),
        BinaryOperation::Divide => if y == 0 {
            Err(BinFault::DivisionByZero)
        } else {
            Ok(Typing::UInt8(x / y))
        },
        BinaryOperation::Modulus => if y == 0 {
            Err(BinFault::DivisionByZero)
        } else {
            Ok(Typing::UInt8(x % y))
        },
        BinaryOperation::Equal => Ok(Typing::Boolean(x == y)),
        BinaryOperation::NotEqual => Ok(Typing::Boolean(x != y)),
        BinaryOperation::Less => Ok(Typing::Boolean(x < y)),
        BinaryOperation::LessEqual => Ok(Typing::Boolean(x <= y)),
        BinaryOperation::Greater => Ok(Typing::Boolean(x > y)),
        BinaryOperation::GreaterEqual => Ok(Typing::Boolean(x >= y)),
        BinaryOperation::BitwiseAnd => Ok(Typing::UInt8(x & y)),
        BinaryOperation::BitwiseOr => Ok(Typing::UInt8(x | y)),
        BinaryOperation::BitwiseXor => Ok(Typing::UInt8(x ^ y)),
        BinaryOperation::BitwiseShiftLeft => Ok(Typing::UInt8(x.wrapping_shl((y & 7) as u32))),
        BinaryOperation::BitwiseShiftRight => Ok(Typing::UInt8(x.wrapping_shr((y & 7) as u32))),
        _ => Err(BinFault::TypeMismatch),
    }
}

/// Applies a binary operator to two booleans.
fn bin_bool(op: BinaryOperation, x: bool, y: bool) -> (r: Result<Typing, BinFault>)
    ensures
        match r {
            Ok(w) => spec_bin_bool(op, x, y) == Ok::<TypingV, BinFault>(w@),
            Err(e) => spec_bin_bool(op, x, y) == Err::<TypingV, BinFault>(e),
        },
{
    match op {
        BinaryOperation::BooleanAnd => Ok(Typing::Boolean(x && y)),
        BinaryOperation::BooleanXor => Ok(Typing::Boolean(x != y)),
        BinaryOperation::BooleanOr => Ok(Typing::Boolean(x || y)),
        BinaryOperation::Equal => Ok(Typing::Boolean(x == y)),
        BinaryOperation::NotEqual => Ok(Typing::Boolean(x != y)),
        _ => Err(BinFault::TypeMismatch),
    }
}

/// Applies a binary operator to two characters.
fn bin_char(op: BinaryOperation, x: char, y: char) -> (r: Result<Typing, BinFault>)
    ensures
        match r {
            Ok(w) => spec_bin_char(op, x, y) == Ok::<TypingV, BinFault>(w@),
            Err(e) => spec_bin_char(op, x, y) == Err::<TypingV, BinFault>(e),
        },
{
    match op {
        BinaryOperation::Equal => Ok(Typing::Boolean(x == y)),
        BinaryOperation::NotEqual => Ok(Typing::Boolean(x != y)),
        BinaryOperation::Less => Ok(Typing::Boolean(x < y)),
        BinaryOperation::LessEqual => Ok(Typing::Boolean(x <= y)),
        BinaryOperation::Greater => Ok(Typing::Boolean(x > y)),
        BinaryOperation::GreaterEqual => Ok(Typing::Boolean(x >= y)),
        _ => Err(BinFault::TypeMismatch),
    }
}

/// The evaluator: owns the syntax tree it walks and the environment it
/// walks it against. The final environment state stays readable after a
/// run, so a driver can persist bindings between evaluations.
#[derive(Debug)]
pub struct Interpreter {
    pub ast: PosAst,
    pub envir: Environment,
}

impl Interpreter {
    pub fn new(ast: PosAst) -> (r: Self)
        ensures
            r.ast == ast,
            r.envir.wf(),
            r.envir@ =~= seq![Map::<Seq<char>, TypingV>::empty()],
    {
        Self { ast, envir: Environment::new() }
    }

    pub fn new_with_environment(ast: PosAst, envir: Environment) -> (r: Self)
        ensures
            r.ast == ast,
            r.envir == envir,
    {
        Self { ast, envir }
    }

    /// Evaluates the whole tree against the owned environment, leaving the
    /// bindings the run produced in place.
    pub fn run(&mut self) -> (r: Result<Option<Typing>, RuntimeError>)
        requires
            old(self).envir.wf(),
        ensures
            final(self).ast == old(self).ast,
            final(self).envir.wf(),
            eval_post(r, spec_eval(old(self).ast, old(self).envir@).0),
            final(self).envir@ == spec_eval(old(self).ast, old(self).envir@).1,
    {
        Self::run_tree(&self.ast, &mut self.envir)
    }

    /// Evaluates one node against an environment.
    fn run_tree(ast: &PosAst, envir: &mut Environment) -> (r: Result<Option<Typing>, RuntimeError>)
        requires
            old(envir).wf(),
        ensures
            final(envir).wf(),
            eval_post(r, spec_eval(*ast, old(envir)@).0),
            final(envir)@ == spec_eval(*ast, old(envir)@).1,
        decreases *ast,
    {
        match &ast.ast {
            Ast::Root(b) => Self::run_tree(b, envir),
            Ast::Value(val) => match val {
                Typing::Ident(id) => match envir.get(id) {
                    Some(v) => Ok(Some(v.duplicate())),
                    None => Err(
                        RuntimeError::NotFound { id: crate::clone_string(id), pos: ast.pos },
                    ),
                },
                _ => Ok(Some(val.duplicate())),
            },
            Ast::UnaryOp(op, b) => {
                let sub = Self::run_tree(b, envir);
                match sub {
                    Err(e) => Err(e),
                    Ok(None) => Err(RuntimeError::TypeMismatchUnary { op: *op, pos: ast.pos }),
                    Ok(Some(v)) => match apply_unary(*op, &v) {
                        Ok(w) => Ok(Some(w)),
                        Err(_) => Err(RuntimeError::TypeMismatchUnary { op: *op, pos: ast.pos }),
                    },
                }
            },
            Ast::BinOp(op, a, b) => {
                let r1 = Self::run_tree(a, envir);
                match r1 {
                    Err(e) => Err(e),
                    Ok(v1) => {
                        let r2 = Self::run_tree(b, envir);
                        match r2 {
                            Err(e) => Err(e),
                            Ok(v2) => match (v1, v2) {
                                (Some(x), Some(y)) => match apply_binary(*op, &x, &y) {
                                    Ok(w) => Ok(Some(w)),
                                    Err(BinFault::TypeMismatch) => Err(
                                        RuntimeError::TypeMismatchBinary { op: *op, pos: ast.pos },
                                    ),
                                    Err(BinFault::DivisionByZero) => Err(
                                        RuntimeError::DivisionByZero { op: *op, pos: ast.pos },
                                    ),
                                },
                                _ => Err(
                                    RuntimeError::TypeMismatchBinary { op: *op, pos: ast.pos },
                                ),
                            },
                        }
                    },
                }
            },
            Ast::Assignment(id, b) => {
                let sub = Self::run_tree(b, envir);
                match sub {
                    Err(e) => Err(e),
                    Ok(None) => Err(RuntimeError::NoValue { pos: ast.pos }),
                    Ok(Some(v)) => {
                        let out = v.duplicate();
                        let _ = envir.set(crate::clone_string(id), v);
                        Ok(Some(out))
                    },
                }
            },
            Ast::Block(children) => {
                let ghost env0 = envir@;
                envir.push();
                let ghost env_pushed = envir@;
                let mut cur: Option<Typing> = None;
                proof {
                    assert(children@.skip(0) =~= children@);
                }
                let mut i: usize = 0;
                while i < children.len()
                    invariant
                        envir.wf(),
                        envir@.len() == env_pushed.len(),
                        env_pushed.len() == env0.len() + 1,
                        0 <= i <= children@.len(),
                        if i < children@.len() {
                            spec_eval_block(children@, env_pushed) == spec_eval_block(
                                children@.skip(i as int),
                                envir@,
                            )
                        } else {
                            spec_eval_block(children@, env_pushed) == (
                                Ok::<Option<TypingV>, RuntimeError>(opt_view(cur)),
                                envir@,
                            )
                        },
                    decreases children@.len() - i,
                {
                    proof {
                        assert(children@.skip(i as int)[0] == children@[i as int]);
                        lemma_eval_env_len(children@[i as int], envir@);
                    }
                    let r = Self::run_tree(&children[i], envir);
                    match r {
                        Err(e) => {
                            proof {
                                lemma_eval_block_env_len(children@, env_pushed);
                            }
                            envir.pop();
                            return Err(e);
                        },
                        Ok(v) => {
                            cur = v;
                        },
                    }
                    proof {
                        assert(children@.skip(i as int).drop_first() =~= children@.skip(
                            i as int + 1,
                        ));
                    }
                    i += 1;
                }
                proof {
                    lemma_eval_block_env_len(children@, env_pushed);
                }
                envir.pop();
                Ok(cur)
            },
        }
    }
}

} // verus!

//! The laws of the parser and the evaluator, stated and proved over the
//! parse and evaluation specifications: operator precedence, the
//! right-recursive associativity of same-level chains, the parenthesization
//! round trip, environment shadowing, and evaluation determinism.

use vstd::prelude::*;
use crate::ast::{Ast, PosAst, Typing, TypingV};
use crate::environment::env_lookup;
use crate::interpreter::spec_eval;
use crate::parser::{
    binop_level, binop_of, spec_parse, spec_parse_binary, spec_parse_number, spec_parse_primary,
    spec_parse_unary, unary_op_of, ParseError,
};
use crate::token::{PosToken, Token};
use crate::Pos;

verus! {

/// The value of a token that is an atom of the grammar: a readable numeric
/// literal, an identifier, or a boolean literal.
pub open spec fn spec_atom_value(t: Token) -> Option<Typing> {
    match t {
        Token::Ident(id) => Some(Typing::Ident(id)),
        Token::True => Some(Typing::Boolean(true)),
        Token::False => Some(Typing::Boolean(false)),
        Token::Number(_) => match spec_parse_number(t) {
            Ok(v) => Some(v),
            Err(_) => None,
        },
        Token::NumberHex(_) => match spec_parse_number(t) {
            Ok(v) => Some(v),
            Err(_) => None,
        },
        Token::NumberBinary(_) => match spec_parse_number(t) {
            Ok(v) => Some(v),
            Err(_) => None,
        },
        _ => None,
    }
}

/// Whether a token is an atom: a one-token primary expression.
pub open spec fn is_atom(t: Token) -> bool {
    spec_atom_value(t) is Some
}

/// The literal node an atom token parses to.
pub open spec fn atom_ast(pt: PosToken) -> PosAst {
    PosAst { ast: Ast::Value(spec_atom_value(pt.token).unwrap()), pos: pt.pos }
}

/// Parsing from `i` at level `l`, where level 11 means the unary level.
pub open spec fn level_parse(ts: Seq<PosToken>, i: int, l: int) -> Result<(PosAst, int), ParseError> {
    if l == 11 {
        spec_parse_unary(ts, i)
    } else {
        spec_parse_binary(ts, i, l)
    }
}

/// An atom token in primary position parses to its literal node.
proof fn lemma_atom_primary(ts: Seq<PosToken>, i: int)
    requires
        0 <= i < ts.len(),
        is_atom(ts[i].token),
    ensures
        spec_parse_primary(ts, i) == Ok::<(PosAst, int), ParseError>((atom_ast(ts[i]), i + 1)),
{
}

/// An atom parses to its literal node at every level at or above `l`, as
/// long as the token after it continues no level at or above `l`.
proof fn lemma_atom_level(ts: Seq<PosToken>, i: int, l: int)
    requires
        0 <= i < ts.len(),
        is_atom(ts[i].token),
        1 <= l <= 11,
        i + 1 >= ts.len() || binop_level(ts[i + 1].token) is None || binop_level(
            ts[i + 1].token,
        ).unwrap() < l,
    ensures
        level_parse(ts, i, l) == Ok::<(PosAst, int), ParseError>((atom_ast(ts[i]), i + 1)),
    decreases 12 - l,
{
    if l == 11 {
        lemma_atom_primary(ts, i);
        assert(unary_op_of(ts[i].token) is None);
    } else {
        lemma_atom_level(ts, i, l + 1);
    }
}

/// A parse result at level `hi` stands unchanged at every looser level down
/// to `l`, as long as the token it stopped at continues none of the levels
/// between.
proof fn lemma_bubble_range(ts: Seq<PosToken>, i: int, a: PosAst, j: int, l: int, hi: int)
    requires
        1 <= l <= hi <= 11,
        level_parse(ts, i, hi) == Ok::<(PosAst, int), ParseError>((a, j)),
        j >= ts.len() || binop_level(ts[j].token) is None || binop_level(ts[j].token).unwrap() < l
            || binop_level(ts[j].token).unwrap() >= hi,
    ensures
        level_parse(ts, i, l) == Ok::<(PosAst, int), ParseError>((a, j)),
    decreases hi - l,
{
    if l < hi {
        lemma_bubble_range(ts, i, a, j, l + 1, hi);
    }
}

/// Precedence: for all inputs of the form `a OP1 b OP2 c` where OP1 binds
/// looser than OP2, the tree has OP1 at the top: the tighter operator binds
/// its operands first, so the result is `OP1(a, OP2(b, c))`.
pub proof fn lemma_precedence(
    t1: PosToken,
    o1: PosToken,
    t2: PosToken,
    o2: PosToken,
    t3: PosToken,
    te: PosToken,
)
    requires
        is_atom(t1.token),
        is_atom(t2.token),
        is_atom(t3.token),
        binop_level(o1.token) is Some,
        binop_level(o2.token) is Some,
        binop_level(o1.token).unwrap() < binop_level(o2.token).unwrap(),
        te.token == Token::EOF,
    ensures
        spec_parse(seq![t1, o1, t2, o2, t3, te]) == Ok::<PosAst, ParseError>(
            PosAst {
                ast: Ast::Root(
                    Box::new(
                        PosAst {
                            ast: Ast::BinOp(
                                binop_of(o1.token),
                                Box::new(atom_ast(t1)),
                                Box::new(
                                    PosAst {
                                        ast: Ast::BinOp(
                                            binop_of(o2.token),
                                            Box::new(atom_ast(t2)),
                                            Box::new(atom_ast(t3)),
                                        ),
                                        pos: o2.pos,
                                    },
                                ),
                            ),
                            pos: o1.pos,
                        },
                    ),
                ),
                pos: Pos { line: 0, col: 0 },
            },
        ),
{
    let ts = seq![t1, o1, t2, o2, t3, te];
    let l1 = binop_level(o1.token).unwrap();
    let l2 = binop_level(o2.token).unwrap();
    assert(ts[0] == t1 && ts[1] == o1 && ts[2] == t2 && ts[3] == o2 && ts[4] == t3 && ts[5] == te);
    assert(1 <= l1 < l2 <= 10);
    let a1 = atom_ast(t1);
    let a2 = atom_ast(t2);
    let a3 = atom_ast(t3);
    // the rightmost atom
    lemma_atom_level(ts, 4, l2);
    // the middle atom, one level tighter than OP2
    lemma_atom_level(ts, 2, l2 + 1);
    // level l2 from the middle atom: consumes OP2 and the right atom
    let b2 = PosAst { ast: Ast::BinOp(binop_of(o2.token), Box::new(a2), Box::new(a3)), pos: o2.pos };
    assert(spec_parse_binary(ts, 2, l2) == Ok::<(PosAst, int), ParseError>((b2, 5)));
    // that result stands down to just above OP1's level
    lemma_bubble_range(ts, 2, b2, 5, l1 + 1, l2);
    // the left atom, one level tighter than OP1
    lemma_atom_level(ts, 0, l1 + 1);
    // level l1 from the start: consumes OP1 and re-enters level l1 on the right
    let b1 = PosAst { ast: Ast::BinOp(binop_of(o1.token), Box::new(a1), Box::new(b2)), pos: o1.pos };
    assert(spec_parse_binary(ts, 2, l1) == Ok::<(PosAst, int), ParseError>((b2, 5)));
    assert(spec_parse_binary(ts, 0, l1) == Ok::<(PosAst, int), ParseError>((b1, 5)));
    // and stands at every looser level
    lemma_bubble_range(ts, 0, b1, 5, 1, l1);
    assert(spec_parse_binary(ts, 0, 1) == Ok::<(PosAst, int), ParseError>((b1, 5)));
}

/// Associativity, as specified: chained operators of one precedence level
/// associate to the right, because the right operand re-enters the same
/// level; `a - b - c` parses as `Subtract(a, Subtract(b, c))`.
pub proof fn lemma_same_level_associates_right(
    t1: PosToken,
    o1: PosToken,
    t2: PosToken,
    o2: PosToken,
    t3: PosToken,
    te: PosToken,
)
    requires
        is_atom(t1.token),
        is_atom(t2.token),
        is_atom(t3.token),
        binop_level(o1.token) is Some,
        binop_level(o1.token) == binop_level(o2.token),
        te.token == Token::EOF,
    ensures
        spec_parse(seq![t1, o1, t2, o2, t3, te]) == Ok::<PosAst, ParseError>(
            PosAst {
                ast: Ast::Root(
                    Box::new(
                        PosAst {
                            ast: Ast::BinOp(
                                binop_of(o1.token),
                                Box::new(atom_ast(t1)),
                                Box::new(
                                    PosAst {
                                        ast: Ast::BinOp(
                                            binop_of(o2.token),
                                            Box::new(atom_ast(t2)),
                                            Box::new(atom_ast(t3)),
                                        ),
                                        pos: o2.pos,
                                    },
                                ),
                            ),
                            pos: o1.pos,
                        },
                    ),
                ),
                pos: Pos { line: 0, col: 0 },
            },
        ),
{
    let ts = seq![t1, o1, t2, o2, t3, te];
    let l = binop_level(o1.token).unwrap();
    assert(ts[0] == t1 && ts[1] == o1 && ts[2] == t2 && ts[3] == o2 && ts[4] == t3 && ts[5] == te);
    assert(1 <= l <= 10);
    let a1 = atom_ast(t1);
    let a2 = atom_ast(t2);
    let a3 = atom_ast(t3);
    lemma_atom_level(ts, 4, l);
    lemma_atom_level(ts, 2, l + 1);
    let b2 = PosAst { ast: Ast::BinOp(binop_of(o2.token), Box::new(a2), Box::new(a3)), pos: o2.pos };
    assert(spec_parse_binary(ts, 2, l) == Ok::<(PosAst, int), ParseError>((b2, 5)));
    lemma_atom_level(ts, 0, l + 1);
    let b1 = PosAst { ast: Ast::BinOp(binop_of(o1.token), Box::new(a1), Box::new(b2)), pos: o1.pos };
    assert(spec_parse_binary(ts, 0, l) == Ok::<(PosAst, int), ParseError>((b1, 5)));
    lemma_bubble_range(ts, 0, b1, 5, 1, l);
    assert(spec_parse_binary(ts, 0, 1) == Ok::<(PosAst, int), ParseError>((b1, 5)));
}

/// Parsing from `i2` in a second token stream that carries the same tokens
/// over the parsed span, and stops as the first did, yields the same tree:
/// a parse reads nothing beyond its span and the one token after it.
/// `kind` 0 is the primary level, 1 the unary level, 2 binary level `l`.
proof fn lemma_parse_local(
    ts1: Seq<PosToken>,
    i1: int,
    ts2: Seq<PosToken>,
    i2: int,
    l: int,
    kind: int,
    a: PosAst,
    j1: int,
)
    requires
        0 <= i1,
        0 <= i2,
        kind == 0 ==> spec_parse_primary(ts1, i1) == Ok::<(PosAst, int), ParseError>((a, j1)),
        kind == 1 ==> spec_parse_unary(ts1, i1) == Ok::<(PosAst, int), ParseError>((a, j1)),
        kind == 2 ==> spec_parse_binary(ts1, i1, l) == Ok::<(PosAst, int), ParseError>((a, j1)),
        0 <= kind <= 2,
        i2 + (j1 - i1) <= ts2.len(),
        forall|k: int| 0 <= k < j1 - i1 ==> (#[trigger] ts2[i2 + k]) == ts1[i1 + k],
        kind == 2 ==> ((j1 < ts1.len() && i2 + (j1 - i1) < ts2.len() && ts2[i2 + (j1 - i1)]
            == ts1[j1]) || ((j1 >= ts1.len() || binop_level(ts1[j1].token) is None) && (i2 + (j1
            - i1) >= ts2.len() || binop_level(ts2[i2 + (j1 - i1)].token) is None))),
    ensures
        kind == 0 ==> spec_parse_primary(ts2, i2) == Ok::<(PosAst, int), ParseError>(
            (a, i2 + (j1 - i1)),
        ),
        kind == 1 ==> spec_parse_unary(ts2, i2) == Ok::<(PosAst, int), ParseError>(
            (a, i2 + (j1 - i1)),
        ),
        kind == 2 ==> spec_parse_binary(ts2, i2, l) == Ok::<(PosAst, int), ParseError>(
            (a, i2 + (j1 - i1)),
        ),
    decreases ts1.len() - i1, (if kind == 0 { 0int } else if kind == 1 { 1int } else if l < 10 {
        12 - l
    } else {
        2int
    }),
{
    let j2 = i2 + (j1 - i1);
    if kind == 0 {
        crate::parser::lemma_parse_advances(ts1, i1, 0, 0);
        assert(i1 < ts1.len());
        assert(ts2[i2 + 0] == ts1[i1 + 0]);
        if ts1[i1].token is LParan {
            // the inner expression ends right before the closing parenthesis
            let inner = spec_parse_binary(ts1, i1 + 1, 1);
            let (ia, ij) = inner.unwrap();
            crate::parser::lemma_parse_advances(ts1, i1 + 1, 1, 2);
            assert(ts1[ij].token is RParan);
            assert(j1 == ij + 1);
            assert(ts2[i2 + (ij - i1)] == ts1[i1 + (ij - i1)]);
            assert forall|k: int| 0 <= k < ij - (i1 + 1) implies (#[trigger] ts2[(i2 + 1) + k])
                == ts1[(i1 + 1) + k] by {
                assert(ts2[i2 + (k + 1)] == ts1[i1 + (k + 1)]);
            }
            lemma_parse_local(ts1, i1 + 1, ts2, i2 + 1, 1, 2, ia, ij);
        }
    } else if kind == 1 {
        crate::parser::lemma_parse_advances(ts1, i1, 0, 1);
        assert(i1 < j1);
        if 0 <= i1 < ts1.len() && unary_op_of(ts1[i1].token) is Some {
            assert(ts2[i2 + 0] == ts1[i1 + 0]);
            let inner = spec_parse_unary(ts1, i1 + 1);
            let (ia, ij) = inner.unwrap();
            crate::parser::lemma_parse_advances(ts1, i1 + 1, 0, 1);
            assert(ij == j1);
            assert forall|k: int| 0 <= k < ij - (i1 + 1) implies (#[trigger] ts2[(i2 + 1) + k])
                == ts1[(i1 + 1) + k] by {
                assert(ts2[i2 + (k + 1)] == ts1[i1 + (k + 1)]);
            }
            lemma_parse_local(ts1, i1 + 1, ts2, i2 + 1, 0, 1, ia, ij);
        } else {
            lemma_parse_local(ts1, i1, ts2, i2, 0, 0, a, j1);
        }
    } else {
        let left = if l < 10 {
            spec_parse_binary(ts1, i1, l + 1)
        } else {
            spec_parse_unary(ts1, i1)
        };
        let (lhs, jl) = left.unwrap();
        if l < 10 {
            crate::parser::lemma_parse_advances(ts1, i1, l + 1, 2);
        } else {
            crate::parser::lemma_parse_advances(ts1, i1, 0, 1);
        }
        let jl2 = i2 + (jl - i1);
        if i1 < jl && 0 <= jl < ts1.len() && binop_level(ts1[jl].token) == Some(l) {
            // the level continues: the operator token lies inside the span
            let right = spec_parse_binary(ts1, jl + 1, l);
            let (rhs, jr) = right.unwrap();
            crate::parser::lemma_parse_advances(ts1, jl + 1, l, 2);
            assert(jr == j1);
            assert(jl < j1);
            assert(ts2[i2 + (jl - i1)] == ts1[i1 + (jl - i1)]);
            if l < 10 {
                lemma_parse_local(ts1, i1, ts2, i2, l + 1, 2, lhs, jl);
            } else {
                lemma_parse_local(ts1, i1, ts2, i2, 11, 1, lhs, jl);
            }
            assert forall|k: int| 0 <= k < jr - (jl + 1) implies (#[trigger] ts2[(jl2 + 1) + k])
                == ts1[(jl + 1) + k] by {
                assert(ts2[i2 + (jl + 1 - i1 + k)] == ts1[i1 + (jl + 1 - i1 + k)]);
            }
            lemma_parse_local(ts1, jl + 1, ts2, jl2 + 1, l, 2, rhs, jr);
        } else {
            // the level stops here: the stop carries over to the second stream
            assert(jl == j1 && lhs == a);
            if l < 10 {
                lemma_parse_local(ts1, i1, ts2, i2, l + 1, 2, lhs, jl);
            } else {
                lemma_parse_local(ts1, i1, ts2, i2, 11, 1, lhs, jl);
            }
            assert(!(i2 < j2 && 0 <= j2 < ts2.len() && binop_level(ts2[j2].token) == Some(l)));
        }
    }
}

/// Parenthesization round trip: wrapping the expression of a parseable
/// token stream in parentheses parses to the identical tree.
pub proof fn lemma_paren_round_trip(ts: Seq<PosToken>, lp: PosToken, rp: PosToken)
    requires
        spec_parse(ts) is Ok,
        lp.token == Token::LParan,
        rp.token == Token::RParan,
    ensures
        ({
            let j = spec_parse_binary(ts, 0, 1).unwrap().1;
            spec_parse(seq![lp] + ts.take(j) + seq![rp] + ts.skip(j)) == spec_parse(ts)
        }),
{
    let inner = spec_parse_binary(ts, 0, 1);
    let (a, j) = inner.unwrap();
    crate::parser::lemma_parse_advances(ts, 0, 1, 2);
    assert(0 <= j < ts.len() && ts[j].token is EOF);
    let ts2 = seq![lp] + ts.take(j) + seq![rp] + ts.skip(j);
    assert(ts2.len() == ts.len() + 2);
    assert(ts2[0] == lp);
    assert forall|k: int| 0 <= k < j implies ts2[1 + k] == ts[k] by {
        assert(ts2[1 + k] == ts.take(j)[k]);
    }
    assert(ts2[j + 1] == rp);
    assert forall|k: int| j <= k < ts.len() implies ts2[k + 2] == ts[k] by {
        assert(ts2[k + 2] == ts.skip(j)[k - j]);
    }
    assert(ts2[j + 2] == ts[j]);
    // the inner parse carries over to the parenthesized stream
    lemma_parse_local(ts, 0, ts2, 1, 1, 2, a, j);
    assert(spec_parse_binary(ts2, 1, 1) == Ok::<(PosAst, int), ParseError>((a, j + 1)));
    // the closing parenthesis completes the primary expression
    assert(spec_parse_primary(ts2, 0) == Ok::<(PosAst, int), ParseError>((a, j + 2)));
    assert(unary_op_of(ts2[0].token) is None);
    assert(spec_parse_unary(ts2, 0) == Ok::<(PosAst, int), ParseError>((a, j + 2)));
    // and the whole expression stands unchanged at every level
    lemma_bubble_range(ts2, 0, a, j + 2, 1, 11);
    assert(spec_parse_binary(ts2, 0, 1) == Ok::<(PosAst, int), ParseError>((a, j + 2)));
    assert(ts2[j + 2].token is EOF);
}

/// Environment shadowing: with an outer and an inner frame both binding
/// one identifier, lookup returns the inner binding; after the inner frame
/// is popped, it returns the outer one.
pub proof fn lemma_environment_shadowing(
    env: Seq<Map<Seq<char>, TypingV>>,
    id: Seq<char>,
    outer_v: TypingV,
    inner_v: TypingV,
)
    requires
        env.len() == 2,
        env[0].contains_key(id),
        env[0][id] == outer_v,
        env[1].contains_key(id),
        env[1][id] == inner_v,
    ensures
        env_lookup(env, id) == Some(inner_v),
        env_lookup(env.drop_last(), id) == Some(outer_v),
{
    assert(env.last() == env[1]);
    assert(env.drop_last().last() == env[0]);
}

/// Evaluation determinism: evaluating one tree against environments with
/// identical bindings yields the same value or the same fault, and leaves
/// identical bindings behind.
pub proof fn lemma_eval_deterministic(
    ast: PosAst,
    env1: Seq<Map<Seq<char>, TypingV>>,
    env2: Seq<Map<Seq<char>, TypingV>>,
)
    requires
        env1 == env2,
    ensures
        spec_eval(ast, env1) == spec_eval(ast, env2),
{
}

} // verus!

//! The syntax-tree and literal-value model produced by the parser and
//! consumed by the evaluator.

use vstd::prelude::*;
use crate::Pos;

verus! {

pub type Ident = String;

/// A syntax-tree node together with the source position it was parsed at.
#[derive(Debug, PartialEq, Eq)]
pub struct PosAst {
    pub ast: Ast,
    pub pos: Pos,
}

impl PosAst {
    pub fn new(ast: Ast, pos: Pos) -> (r: Self)
        ensures
            r.ast == ast,
            r.pos == pos,
    {
        Self { ast, pos }
    }
}

/// A positioned tagged union of parsed constructs. Every non-leaf node's
/// children are fully parsed before the parent is constructed.
#[derive(Debug, PartialEq, Eq)]
pub enum Ast {
    /// The start of the program (global scope).
    Root(Box<PosAst>),
    /// A sequence of nodes; its value is the value of the final child.
    Block(Vec<PosAst>),

    UnaryOp(UnaryOperation, Box<PosAst>),
    BinOp(BinaryOperation, Box<PosAst>, Box<PosAst>),

    /// Bind the value of the child to the identifier in the innermost frame.
    Assignment(Ident, Box<PosAst>),

    Value(Typing),
}

#[derive(Debug, PartialEq, Eq, Copy, Clone)]
pub enum UnaryOperation {
    Negate,
    BooleanNot,
    BitwiseNot,
}

#[derive(Debug, PartialEq, Eq, Copy, Clone)]
pub enum BinaryOperation {
    Multiply,
    Divide,
    Modulus,
    Add,
    Subtract,

    BooleanAnd,
    BooleanXor,
    BooleanOr,

    Equal,
    NotEqual,
    Less,
    LessEqual,
    Greater,
    GreaterEqual,

    BitwiseShiftLeft,
    BitwiseShiftRight,
    BitwiseAnd,
    BitwiseXor,
    BitwiseOr,
}

/// A typed literal value: what literal nodes carry and what evaluation
/// produces.
#[derive(Debug, PartialEq, Eq)]
pub enum Typing {
    Int64(i64),
    UInt64(u64),

    UInt8(u8),
    Boolean(bool),

    Character(char),
    String(Box<ChoppedString>),

    /// A reference to a binding, resolved against the environment.
    Ident(Ident),
}

/// The mathematical value of a [`Typing`]: identifiers and string bodies as
/// character sequences, substitution points as a sequence of pairs.
pub enum TypingV {
    Int64(i64),
    UInt64(u64),
    UInt8(u8),
    Boolean(bool),
    Character(char),
    String(ChoppedStringV),
    Ident(Seq<char>),
}

impl View for Typing {
    type V = TypingV;

    open spec fn view(&self) -> TypingV {
        match self {
            Typing::Int64(v) => TypingV::Int64(*v),
            Typing::UInt64(v) => TypingV::UInt64(*v),
            Typing::UInt8(v) => TypingV::UInt8(*v),
            Typing::Boolean(v) => TypingV::Boolean(*v),
            Typing::Character(v) => TypingV::Character(*v),
            Typing::String(s) => TypingV::String(s@),
            Typing::Ident(id) => TypingV::Ident(id@),
        }
    }
}

impl Typing {
    /// An owned copy whose mathematical value equals the original's.
    pub fn duplicate(&self) -> (r: Self)
        ensures
            r@ == self@,
    {
        match self {
            Self::Int64(v) => Self::Int64(*v),
            Self::UInt64(v) => Self::UInt64(*v),
            Self::UInt8(v) => Self::UInt8(*v),
            Self::Boolean(v) => Self::Boolean(*v),
            Self::Character(v) => Self::Character(*v),
            Self::String(s) => Self::String(Box::new(s.duplicate())),
            Self::Ident(id) => Self::Ident(crate::clone_string(id)),
        }
    }
}

/// A string literal pre-split for template-style interpolation: the string
/// body plus substitution points, each an identifier with the byte offset
/// where its value is to be spliced in, sorted in reverse offset order so
/// substitutions can be applied right to left.
#[derive(Debug, PartialEq, Eq)]
pub struct ChoppedString {
    pub string: String,
    /// [(Ident, splice offset)] sorted in reverse offset order.
    pub fill: Vec<(Ident, usize)>,
}

/// The mathematical value of a [`ChoppedString`].
#[verifier::ext_equal]
pub struct ChoppedStringV {
    pub string: Seq<char>,
    pub fill: Seq<(Seq<char>, usize)>,
}

impl View for ChoppedString {
    type V = ChoppedStringV;

    open spec fn view(&self) -> ChoppedStringV {
        ChoppedStringV {
            string: self.string@,
            fill: self.fill@.map_values(|p: (Ident, usize)| (p.0@, p.1)),
        }
    }
}

impl ChoppedStringV {
    /// Substitution points sorted in reverse offset order.
    pub open spec fn wf(&self) -> bool {
        forall|i: int, j: int| 0 <= i < j < self.fill.len() ==> self.fill[i].1 >= self.fill[j].1
    }
}

impl ChoppedString {
    /// A plain string with no substitution points.
    pub fn plain(string: String) -> (r: Self)
        ensures
            r@.string == string@,
            r@.fill == Seq::<(Seq<char>, usize)>::empty(),
            r@.wf(),
    {
        let r = Self { string, fill: Vec::new() };
        proof {
            assert(r@.fill =~= Seq::<(Seq<char>, usize)>::empty());
        }
        r
    }

    /// An owned copy whose mathematical value equals the original's.
    pub fn duplicate(&self) -> (r: Self)
        ensures
            r@ == self@,
    {
        let mut fill: Vec<(Ident, usize)> = Vec::new();
        let mut i: usize = 0;
        while i < self.fill.len()
            invariant
                0 <= i <= self.fill@.len(),
                fill@ == self.fill@.take(i as int),
            decreases self.fill@.len() - i,
        {
            let (id, off) = (crate::clone_string(&self.fill[i].0), self.fill[i].1);
            fill.push((id, off));
            proof {
                assert(fill@ =~= self.fill@.take(i as int + 1));
            }
            i += 1;
        }
        let r = Self { string: crate::clone_string(&self.string), fill };
        proof {
            assert(r.fill@ =~= self.fill@);
            assert(r@ =~= self@);
        }
        r
    }
}

} // verus!

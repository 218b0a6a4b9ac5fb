//! The token model: a closed set of positioned lexical units produced by
//! the lexer and consumed by the parser.

use vstd::prelude::*;
use crate::Pos;

verus! {

/// A token together with the position of its first character.
#[derive(Debug, PartialEq, Eq)]
pub struct PosToken {
    pub token: Token,
    pub pos: Pos,
}

impl PosToken {
    pub fn new(token: Token, line: usize, col: usize) -> (r: Self)
        ensures
            r.token == token,
            r.pos == (Pos { line, col }),
    {
        Self { token, pos: Pos { line, col } }
    }

    /// The explicit end-of-stream marker that terminates every token stream.
    pub fn eof(pos: Pos) -> (r: Self)
        ensures
            r.token == Token::EOF,
            r.pos == pos,
    {
        Self { token: Token::EOF, pos }
    }
}

#[derive(Debug, PartialEq, Eq, Clone)]
pub enum Token {
    /// Starts with [_ A..Z a..z], then [_ - A..Z a..z 0..9]
    Ident(String),
    /// .
    Dot,
    /// #IDENT
    Macro(MacroToken),
    /// 213, -123, 123.0, -123.0, 123_000_000.00_00 (radix 10)
    Number(String),
    /// 0x123abc, 0x123ABC (radix 16, digits kept lower-case)
    NumberHex(String),
    /// 0b1101, 0b10101000 (radix 2)
    NumberBinary(String),
    /// '\n', 'c'
    Character(char),
    /// "", "string", \`back string\`, r"", r#" " "#
    String(String),
    EOF,

    /// (
    LParan,
    /// )
    RParan,
    /// [
    LBracket,
    /// ]
    RBracket,
    /// {
    LCurly,
    /// }
    RCurly,
    /// ,
    Comma,
    /// :
    Colon,
    /// ; Reserved!
    SemiColon,
    /// $ Reserved!
    DollarSign,

    /// const
    Const,
    /// let
    Let,
    /// var
    Var,

    /// true
    True,
    /// false
    False,

    /// enum Reserved!
    Enum,
    /// struct Reserved!
    Struct,
    /// rec
    Recursive,
    /// fn
    Function,
    /// return
    Return,
    /// ret
    ScopeReturn,
    /// trait Reserved!
    Trait,
    /// impl Reserved!
    Implement,
    /// where Reserved!
    Where,

    /// try
    Try,
    /// if
    If,
    /// guard
    Guard,
    /// else
    Else,
    /// switch
    Switch,
    /// while
    While,
    /// for
    For,
    /// in
    In,
    /// break
    Break,

    /// mod
    Module,
    /// pub
    Public,

    /// ? (Optional type)
    QuestionMark,
    /// ?? Reserved!
    Coalesce,

    /// =
    Assign,
    /// =>
    AssignPath,
    /// ==
    Equal,

    /// !
    Not,
    /// !=
    NotEqual,
    /// <
    Less,
    /// <=
    LessEqual,
    /// >
    Greater,
    /// >=
    GreaterEqual,
    /// &&
    And,
    /// ^^
    Xor,
    /// ||
    Or,

    /// *
    Multiply,
    /// *=
    MultiplyAssign,
    /// /
    Divide,
    /// /=
    DivideAssign,
    /// +
    Add,
    /// +=
    AddAssign,
    /// -
    Subtract,
    /// -=
    SubtractAssign,
    /// %
    Modulus,
    /// %=
    ModulusAssign,

    /// ~
    BitNegate,
    /// ~=
    BitNegateAssign,
    /// &
    BitAnd,
    /// &=
    BitAndAssign,
    /// |
    BitOr,
    /// |=
    BitOrAssign,
    /// ^
    BitXor,
    /// ^=
    BitXorAssign,
    /// <<
    BitShiftLeft,
    /// <<=
    BitShiftLeftAssign,
    /// >>
    BitShiftRight,
    /// >>=
    BitShiftRightAssign,

    /// ..<
    RangeExclusive,
    /// ..=
    RangeInclusive,
}

impl Token {
    /// Whether this token is a numeric literal of any radix.
    pub fn is_number(&self) -> (r: bool)
        ensures
            r == self.is_number_spec(),
    {
        match self {
            Self::Number(..) | Self::NumberHex(..) | Self::NumberBinary(..) => true,
            _ => false,
        }
    }

    pub open spec fn is_number_spec(&self) -> bool {
        self is Number || self is NumberHex || self is NumberBinary
    }

    /// An owned copy, equal to the original token.
    pub fn duplicate(&self) -> (r: Self)
        ensures
            r == *self,
    {
        match self {
            Self::Ident(s) => Self::Ident(crate::clone_string(s)),
            Self::Dot => Self::Dot,
            Self::Macro(m) => Self::Macro(*m),
            Self::Number(s) => Self::Number(crate::clone_string(s)),
            Self::NumberHex(s) => Self::NumberHex(crate::clone_string(s)),
            Self::NumberBinary(s) => Self::NumberBinary(crate::clone_string(s)),
            Self::Character(c) => Self::Character(*c),
            Self::String(s) => Self::String(crate::clone_string(s)),
            Self::EOF => Self::EOF,
            Self::LParan => Self::LParan,
            Self::RParan => Self::RParan,
            Self::LBracket => Self::LBracket,
            Self::RBracket => Self::RBracket,
            Self::LCurly => Self::LCurly,
            Self::RCurly => Self::RCurly,
            Self::Comma => Self::Comma,
            Self::Colon => Self::Colon,
            Self::SemiColon => Self::SemiColon,
            Self::DollarSign => Self::DollarSign,
            Self::Const => Self::Const,
            Self::Let => Self::Let,
            Self::Var => Self::Var,
            Self::True => Self::True,
            Self::False => Self::False,
            Self::Enum => Self::Enum,
            Self::Struct => Self::Struct,
            Self::Recursive => Self::Recursive,
            Self::Function => Self::Function,
            Self::Return => Self::Return,
            Self::ScopeReturn => Self::ScopeReturn,
            Self::Trait => Self::Trait,
            Self::Implement => Self::Implement,
            Self::Where => Self::Where,
            Self::Try => Self::Try,
            Self::If => Self::If,
            Self::Guard => Self::Guard,
            Self::Else => Self::Else,
            Self::Switch => Self::Switch,
            Self::While => Self::While,
            Self::For => Self::For,
            Self::In => Self::In,
            Self::Break => Self::Break,
            Self::Module => Self::Module,
            Self::Public => Self::Public,
            Self::QuestionMark => Self::QuestionMark,
            Self::Coalesce => Self::Coalesce,
            Self::Assign => Self::Assign,
            Self::AssignPath => Self::AssignPath,
            Self::Equal => Self::Equal,
            Self::Not => Self::Not,
            Self::NotEqual => Self::NotEqual,
            Self::Less => Self::Less,
            Self::LessEqual => Self::LessEqual,
            Self::Greater => Self::Greater,
            Self::GreaterEqual => Self::GreaterEqual,
            Self::And => Self::And,
            Self::Xor => Self::Xor,
            Self::Or => Self::Or,
            Self::Multiply => Self::Multiply,
            Self::MultiplyAssign => Self::MultiplyAssign,
            Self::Divide => Self::Divide,
            Self::DivideAssign => Self::DivideAssign,
            Self::Add => Self::Add,
            Self::AddAssign => Self::AddAssign,
            Self::Subtract => Self::Subtract,
            Self::SubtractAssign => Self::SubtractAssign,
            Self::Modulus => Self::Modulus,
            Self::ModulusAssign => Self::ModulusAssign,
            Self::BitNegate => Self::BitNegate,
            Self::BitNegateAssign => Self::BitNegateAssign,
            Self::BitAnd => Self::BitAnd,
            Self::BitAndAssign => Self::BitAndAssign,
            Self::BitOr => Self::BitOr,
            Self::BitOrAssign => Self::BitOrAssign,
            Self::BitXor => Self::BitXor,
            Self::BitXorAssign => Self::BitXorAssign,
            Self::BitShiftLeft => Self::BitShiftLeft,
            Self::BitShiftLeftAssign => Self::BitShiftLeftAssign,
            Self::BitShiftRight => Self::BitShiftRight,
            Self::BitShiftRightAssign => Self::BitShiftRightAssign,
            Self::RangeExclusive => Self::RangeExclusive,
            Self::RangeInclusive => Self::RangeInclusive,
        }
    }
}

/// The macro directives recognised at the token level (`#config` and the
/// like). Their grammar belongs to the surrounding driver; this core only
/// tokenizes them.
#[derive(Debug, PartialEq, Eq, Copy, Clone)]
pub enum MacroToken {
    /// #config IDENT VALUE
    Config,
    /// #use IDENT|STRING
    Use,

    /// #triplet STRING|STRING,STRING...
    Triplet,
    /// #os STRING|STRING,STRING...
    OS,
    /// #family STRING|STRING,STRING...
    Family,
    /// #arch STRING|STRING,STRING...
    Arch,

    /// #comptime {}
    CompTime,
    /// #testtime {}
    TestTime,

    /// #bytes fill BYTE AMOUNT, #bytes from IDENT, #bytes from (VALUE)
    Bytes,
    /// #map, #map {}, #map { "STRING": VAL, "": VAL }
    MapMacro,
    /// #set, #set [], #set [VAL, VAL]
    SetMacro,
    /// #regex IDENT/STRING
    Regex,
}

} // verus!

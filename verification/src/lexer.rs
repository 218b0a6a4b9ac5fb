//! The lexer: turns source text into a sequence of positioned tokens ending
//! in the end-of-stream marker, or fails with a position-tagged lexical
//! fault. Every token carries the position of its first character; lines
//! and columns are 1-based.

use vstd::prelude::*;
use crate::{string_from_chars, string_of, Pos};
use crate::token::{MacroToken, PosToken, Token};

verus! {

/// A lexical fault: malformed input, reported with the source position of
/// the construct it breaks.
#[derive(Debug, PartialEq, Eq, Clone)]
pub enum LexerError {
    /// A character that starts no token.
    UnexpectedChar { c: char, pos: Pos },
    /// `..` without the `<` or `=` that completes a range operator.
    RangeMissingEnd { pos: Pos },
    /// A multi-line comment that reaches the end of input unterminated; the
    /// position is the comment's start.
    CommentNotClosed { pos: Pos },
    /// `0x` with no hexadecimal digit after it.
    HexEmpty { pos: Pos },
    /// `0b` with no binary digit after it.
    BinaryEmpty { pos: Pos },
    /// A second decimal point inside one numeric literal.
    DecimalMoreThanOnePeriod { pos: Pos },
    /// A character literal with nothing between its quotes.
    CharEmpty { pos: Pos },
    /// A backslash escape that names no escapable character.
    CharBadEscape { c: char, pos: Pos },
    /// A character literal missing its closing quote.
    CharNotClosed { pos: Pos },
    /// A string literal missing its closing quote before the line or the
    /// input ends.
    StringNotClosed { pos: Pos },
    /// A backslash escape in a string that names no escapable character.
    StringBadEscape { c: char, pos: Pos },
    /// A back-quoted string missing its closing back quote.
    BackStringNotClosed { pos: Pos },
    /// A raw string missing its closing quote and hashes.
    RawStringNotClosed { pos: Pos },
    /// A raw string closed by a wider quote-and-hashes than opened it.
    RawStringTooManyHashes { pos: Pos },
    /// `r` with hashes but no opening quote.
    RawStringMissingQuote { pos: Pos },
    /// `#` followed by a name that is no macro directive.
    UnknownMacro { pos: Pos },
}

/// The character at an index, with a NUL sentinel past either end, so
/// lookahead never fails: input past the end reads as an endless run of
/// sentinels.
pub open spec fn peek_at(cs: Seq<char>, i: int) -> char {
    if 0 <= i < cs.len() {
        cs[i]
    } else {
        '\0'
    }
}

pub open spec fn is_digit(c: char) -> bool {
    '0' <= c && c <= '9'
}

pub open spec fn is_lower(c: char) -> bool {
    'a' <= c && c <= 'z'
}

pub open spec fn is_ident_start(c: char) -> bool {
    c == '_' || ('a' <= c && c <= 'z') || ('A' <= c && c <= 'Z')
}

pub open spec fn is_ident_continue(c: char) -> bool {
    is_ident_start(c) || is_digit(c) || c == '-'
}

/// Blank characters, the newline included, as the boundary that lets a
/// minus sign open a negative numeric literal.
pub open spec fn is_blank(c: char) -> bool {
    c == ' ' || c == '\t' || c == '\r' || c == '\n'
}

/// An upper-case hexadecimal digit folded to lower case; all other
/// characters unchanged.
pub open spec fn lower_hex(c: char) -> char {
    match c {
        'A' => 'a',
        'B' => 'b',
        'C' => 'c',
        'D' => 'd',
        'E' => 'e',
        'F' => 'f',
        _ => c,
    }
}

/// The character a backslash escape stands for, in character and string
/// literals.
pub open spec fn escape_char(c: char) -> Option<char> {
    match c {
        'n' => Some('\n'),
        't' => Some('\t'),
        '\\' => Some('\\'),
        '\'' => Some('\''),
        '"' => Some('"'),
        _ => None,
    }
}

/// Where lexing stands after a line comment: right after the newline that
/// ends it, or at the end of input.
pub open spec fn spec_line_comment(cs: Seq<char>, i: int, line: int, col: int) -> (int, int, int)
    decreases cs.len() - i,
{
    if i < 0 || i >= cs.len() {
        (i, line, col)
    } else if cs[i] == '\n' {
        (i + 1, line + 1, 1)
    } else {
        spec_line_comment(cs, i + 1, line, col + 1)
    }
}

/// Where lexing stands after a multi-line comment body, or `None` when the
/// input ends before the closing `*/`.
pub open spec fn spec_block_comment(cs: Seq<char>, i: int, line: int, col: int) -> Option<
    (int, int, int),
>
    decreases cs.len() - i,
{
    if i < 0 || i >= cs.len() {
        None
    } else if cs[i] == '*' && peek_at(cs, i + 1) == '/' {
        Some((i + 2, line, col + 2))
    } else if cs[i] == '\n' {
        spec_block_comment(cs, i + 1, line + 1, 1)
    } else {
        spec_block_comment(cs, i + 1, line, col + 1)
    }
}

/// The hexadecimal digits read from an index: digits collected lower-case,
/// underscores skipped, ending at the first other character.
pub open spec fn spec_hex_digits(cs: Seq<char>, i: int) -> (Seq<char>, int)
    decreases cs.len() - i,
{
    if i < 0 || i >= cs.len() {
        (Seq::empty(), i)
    } else if is_digit(cs[i]) || is_lower(cs[i]) && cs[i] <= 'f' || 'A' <= cs[i] && cs[i] <= 'F' {
        let (rest, j) = spec_hex_digits(cs, i + 1);
        (seq![lower_hex(cs[i])] + rest, j)
    } else if cs[i] == '_' {
        spec_hex_digits(cs, i + 1)
    } else {
        (Seq::empty(), i)
    }
}

/// The binary digits read from an index, underscores skipped.
pub open spec fn spec_bin_digits(cs: Seq<char>, i: int) -> (Seq<char>, int)
    decreases cs.len() - i,
{
    if i < 0 || i >= cs.len() {
        (Seq::empty(), i)
    } else if cs[i] == '0' || cs[i] == '1' {
        let (rest, j) = spec_bin_digits(cs, i + 1);
        (seq![cs[i]] + rest, j)
    } else if cs[i] == '_' {
        spec_bin_digits(cs, i + 1)
    } else {
        (Seq::empty(), i)
    }
}

/// The decimal digits read from an index: digits and at most one decimal
/// point (kept when a digit follows it), underscores skipped; a second
/// decimal point is the fault, reported by its index.
pub open spec fn spec_num_digits(cs: Seq<char>, i: int, period: bool) -> Result<
    (Seq<char>, int),
    int,
>
    decreases cs.len() - i,
{
    if i < 0 || i >= cs.len() {
        Ok((Seq::empty(), i))
    } else if is_digit(cs[i]) {
        match spec_num_digits(cs, i + 1, period) {
            Ok((rest, j)) => Ok((seq![cs[i]] + rest, j)),
            Err(k) => Err(k),
        }
    } else if cs[i] == '.' && is_digit(peek_at(cs, i + 1)) {
        if period {
            Err(i)
        } else {
            match spec_num_digits(cs, i + 1, true) {
                Ok((rest, j)) => Ok((seq![cs[i]] + rest, j)),
                Err(k) => Err(k),
            }
        }
    } else if cs[i] == '_' {
        spec_num_digits(cs, i + 1, period)
    } else {
        Ok((Seq::empty(), i))
    }
}

/// The body of a double-quoted string from an index: plain characters and
/// backslash escapes up to the closing quote; a newline or the end of
/// input faults, as does an unknown escape. The column is the one of the
/// index; the start position names the string in faults.
pub open spec fn spec_string_chars(cs: Seq<char>, i: int, col: int, start: Pos) -> Result<
    (Seq<char>, int),
    LexerError,
>
    decreases cs.len() - i,
{
    if i < 0 || i >= cs.len() {
        Err(LexerError::StringNotClosed { pos: start })
    } else if cs[i] == '"' {
        Ok((Seq::empty(), i + 1))
    } else if cs[i] == '\\' {
        if i + 1 >= cs.len() {
            Err(LexerError::StringNotClosed { pos: start })
        } else {
            match escape_char(cs[i + 1]) {
                None => Err(
                    LexerError::StringBadEscape {
                        c: cs[i + 1],
                        pos: Pos { line: start.line, col: (col + 1) as usize },
                    },
                ),
                Some(m) => match spec_string_chars(cs, i + 2, col + 2, start) {
                    Ok((rest, j)) => Ok((seq![m] + rest, j)),
                    Err(e) => Err(e),
                },
            }
        }
    } else if cs[i] == '\n' {
        Err(LexerError::StringNotClosed { pos: start })
    } else {
        match spec_string_chars(cs, i + 1, col + 1, start) {
            Ok((rest, j)) => Ok((seq![cs[i]] + rest, j)),
            Err(e) => Err(e),
        }
    }
}

/// The body of a back-quoted string from an index: every character up to
/// the closing back quote, newlines included; the end of input faults.
pub open spec fn spec_back_chars(cs: Seq<char>, i: int, line: int, col: int, start: Pos) -> Result<
    (Seq<char>, int, int, int),
    LexerError,
>
    decreases cs.len() - i,
{
    if i < 0 || i >= cs.len() {
        Err(LexerError::BackStringNotClosed { pos: start })
    } else if cs[i] == '`' {
        Ok((Seq::empty(), i + 1, line, col + 1))
    } else if cs[i] == '\n' {
        match spec_back_chars(cs, i + 1, line + 1, 1, start) {
            Ok((rest, j, l, c)) => Ok((seq![cs[i]] + rest, j, l, c)),
            Err(e) => Err(e),
        }
    } else {
        match spec_back_chars(cs, i + 1, line, col + 1, start) {
            Ok((rest, j, l, c)) => Ok((seq![cs[i]] + rest, j, l, c)),
            Err(e) => Err(e),
        }
    }
}

/// How many consecutive hash marks stand at an index.
pub open spec fn spec_hash_run(cs: Seq<char>, i: int) -> int
    decreases cs.len() - i,
{
    if i < 0 || i >= cs.len() {
        0
    } else if cs[i] == '#' {
        1 + spec_hash_run(cs, i + 1)
    } else {
        0
    }
}

/// The body of a raw string opened with `n` hashes, from an index inside
/// the content: characters up to a quote followed by exactly `n` hashes; a
/// quote followed by fewer hashes belongs to the content; one followed by
/// more faults, as does the end of input.
pub open spec fn spec_raw_chars(
    cs: Seq<char>,
    i: int,
    n: int,
    line: int,
    col: int,
    start: Pos,
) -> Result<(Seq<char>, int, int, int), LexerError>
    decreases cs.len() - i, 0int,
{
    if i < 0 || i >= cs.len() {
        Err(LexerError::RawStringNotClosed { pos: start })
    } else if cs[i] == '"' {
        spec_raw_close(cs, i + 1, n, line, col + 1, start)
    } else if cs[i] == '\n' {
        match spec_raw_chars(cs, i + 1, n, line + 1, 1, start) {
            Ok((rest, j, l, c)) => Ok((seq![cs[i]] + rest, j, l, c)),
            Err(e) => Err(e),
        }
    } else {
        match spec_raw_chars(cs, i + 1, n, line, col + 1, start) {
            Ok((rest, j, l, c)) => Ok((seq![cs[i]] + rest, j, l, c)),
            Err(e) => Err(e),
        }
    }
}

/// After a quote inside a raw string: the run of hashes that follows
/// decides whether the string closes here, continues as content, or is
/// over-closed. `i` stands right after the quote, `col` at `i`.
pub open spec fn spec_raw_close(
    cs: Seq<char>,
    i: int,
    n: int,
    line: int,
    col: int,
    start: Pos,
) -> Result<(Seq<char>, int, int, int), LexerError>
    decreases cs.len() - i, 1int,
{
    let h = spec_hash_run(cs, i);
    if h > n {
        Err(LexerError::RawStringTooManyHashes { pos: Pos { line: line as usize, col: (col - 1) as usize } })
    } else if h == n {
        Ok((Seq::empty(), i + n, line, col + n))
    } else {
        // fewer hashes than the opening: the quote and these hashes are content
        if 0 <= h && i + h <= cs.len() {
            match spec_raw_chars(cs, i + h, n, line, col + h, start) {
                Ok((rest, j, l, c)) => Ok(
                    (seq!['"'] + Seq::new(h as nat, |k: int| '#') + rest, j, l, c),
                ),
                Err(e) => Err(e),
            }
        } else {
            Err(LexerError::RawStringNotClosed { pos: start })
        }
    }
}

/// The identifier characters read from an index: an identifier starts with
/// a letter or underscore and continues with letters, digits, underscores
/// and dashes.
pub open spec fn spec_ident_chars(cs: Seq<char>, i: int) -> (Seq<char>, int)
    decreases cs.len() - i,
{
    if i < 0 || i >= cs.len() {
        (Seq::empty(), i)
    } else if is_ident_continue(cs[i]) {
        let (rest, j) = spec_ident_chars(cs, i + 1);
        (seq![cs[i]] + rest, j)
    } else {
        (Seq::empty(), i)
    }
}

/// The run of lower-case letters from an index: the shape of a macro
/// directive's name.
pub open spec fn spec_lower_chars(cs: Seq<char>, i: int) -> (Seq<char>, int)
    decreases cs.len() - i,
{
    if i < 0 || i >= cs.len() {
        (Seq::empty(), i)
    } else if is_lower(cs[i]) {
        let (rest, j) = spec_lower_chars(cs, i + 1);
        (seq![cs[i]] + rest, j)
    } else {
        (Seq::empty(), i)
    }
}

/// The token an identifier's characters stand for: one of the keywords, or
/// an identifier carrying its name.
pub open spec fn keyword_token(s: Seq<char>) -> Token {
    if s == "const"@ {
        Token::Const
    } else if s == "let"@ {
        Token::Let
    } else if s == "var"@ {
        Token::Var
    } else if s == "true"@ {
        Token::True
    } else if s == "false"@ {
        Token::False
    } else if s == "enum"@ {
        Token::Enum
    } else if s == "struct"@ {
        Token::Struct
    } else if s == "rec"@ {
        Token::Recursive
    } else if s == "fn"@ {
        Token::Function
    } else if s == "return"@ {
        Token::Return
    } else if s == "ret"@ {
        Token::ScopeReturn
    } else if s == "trait"@ {
        Token::Trait
    } else if s == "impl"@ {
        Token::Implement
    } else if s == "where"@ {
        Token::Where
    } else if s == "try"@ {
        Token::Try
    } else if s == "if"@ {
        Token::If
    } else if s == "guard"@ {
        Token::Guard
    } else if s == "else"@ {
        Token::Else
    } else if s == "switch"@ {
        Token::Switch
    } else if s == "while"@ {
        Token::While
    } else if s == "for"@ {
        Token::For
    } else if s == "in"@ {
        Token::In
    } else if s == "break"@ {
        Token::Break
    } else if s == "mod"@ {
        Token::Module
    } else if s == "pub"@ {
        Token::Public
    } else {
        Token::Ident(string_of(s))
    }
}

/// The macro directive a name stands for, if any.
pub open spec fn macro_of(s: Seq<char>) -> Option<MacroToken> {
    if s == "config"@ {
        Some(MacroToken::Config)
    } else if s == "use"@ {
        Some(MacroToken::Use)
    } else if s == "triplet"@ {
        Some(MacroToken::Triplet)
    } else if s == "os"@ {
        Some(MacroToken::OS)
    } else if s == "family"@ {
        Some(MacroToken::Family)
    } else if s == "arch"@ {
        Some(MacroToken::Arch)
    } else if s == "comptime"@ {
        Some(MacroToken::CompTime)
    } else if s == "testtime"@ {
        Some(MacroToken::TestTime)
    } else if s == "bytes"@ {
        Some(MacroToken::Bytes)
    } else if s == "map"@ {
        Some(MacroToken::MapMacro)
    } else if s == "set"@ {
        Some(MacroToken::SetMacro)
    } else if s == "regex"@ {
        Some(MacroToken::Regex)
    } else {
        None
    }
}

/// Prepends tokens to the rest of a lexing result.
pub open spec fn lex_acc(
    acc: Seq<PosToken>,
    r: Result<(Seq<PosToken>, int, int), LexerError>,
) -> Result<(Seq<PosToken>, int, int), LexerError> {
    match r {
        Ok((toks, line, col)) => Ok((acc + toks, line, col)),
        Err(e) => Err(e),
    }
}

/// The character and width of a character literal at the cursor: a plain
/// character or a backslash escape between single quotes.
pub open spec fn spec_char_lit(cs: Seq<char>, i: int, line: int, col: int) -> Result<
    (char, int),
    LexerError,
> {
    let pos = Pos { line: line as usize, col: col as usize };
    let c2 = peek_at(cs, i + 1);
    let c3 = peek_at(cs, i + 2);
    if c2 == '\\' {
        if i + 2 >= cs.len() {
            Err(LexerError::CharNotClosed { pos })
        } else {
            match escape_char(c3) {
                None => Err(
                    LexerError::CharBadEscape {
                        c: c3,
                        pos: Pos { line: line as usize, col: (col + 2) as usize },
                    },
                ),
                Some(m) => if i + 3 < cs.len() && cs[i + 3] == '\'' {
                    Ok((m, 4))
                } else {
                    Err(LexerError::CharNotClosed { pos })
                },
            }
        }
    } else if c2 == '\'' {
        Err(LexerError::CharEmpty { pos })
    } else if i + 1 >= cs.len() || c2 == '\n' {
        Err(LexerError::CharNotClosed { pos })
    } else if i + 2 < cs.len() && cs[i + 2] == '\'' {
        Ok((c2, 3))
    } else {
        Err(LexerError::CharNotClosed { pos })
    }
}

/// One fixed-width token at the cursor, then the rest of the input.
pub open spec fn spec_lex_tok(
    cs: Seq<char>,
    i: int,
    line: int,
    col: int,
    t: Token,
    w: int,
) -> Result<(Seq<PosToken>, int, int), LexerError>
    decreases cs.len() - i, 0int,
{
    if i < i + w && i + w <= cs.len() {
        lex_acc(
            seq![PosToken { token: t, pos: Pos { line: line as usize, col: col as usize } }],
            spec_lex_from(cs, i + w, line, col + w),
        )
    } else {
        Err(LexerError::UnexpectedChar { c: peek_at(cs, i), pos: Pos { line: line as usize, col: col as usize } })
    }
}

/// A token of `w` characters ending at `j` with the line unchanged, then
/// the rest of the input.
pub open spec fn spec_lex_span(
    cs: Seq<char>,
    i: int,
    line: int,
    col: int,
    t: Token,
    j: int,
) -> Result<(Seq<PosToken>, int, int), LexerError>
    decreases cs.len() - i, 0int,
{
    if i < j && j <= cs.len() {
        lex_acc(
            seq![PosToken { token: t, pos: Pos { line: line as usize, col: col as usize } }],
            spec_lex_from(cs, j, line, col + (j - i)),
        )
    } else {
        Err(LexerError::UnexpectedChar { c: peek_at(cs, i), pos: Pos { line: line as usize, col: col as usize } })
    }
}

/// What lexing yields from a cursor position on: the tokens up to the end
/// of input (without the end marker) and the final line and column, or the
/// first lexical fault. Each step consumes the longest token the leading
/// characters allow, in the fixed dispatch order below.
pub open spec fn spec_lex_from(cs: Seq<char>, i: int, line: int, col: int) -> Result<
    (Seq<PosToken>, int, int),
    LexerError,
>
    decreases cs.len() - i, 2int,
{
    let pos = Pos { line: line as usize, col: col as usize };
    if i < 0 || i >= cs.len() {
        Ok((Seq::empty(), line, col))
    } else {
        let c1 = cs[i];
        let c2 = peek_at(cs, i + 1);
        let c3 = peek_at(cs, i + 2);
        if c1 == '/' && c2 == '/' {
            let (j, l2, cl2) = spec_line_comment(cs, i + 2, line, col + 2);
            if i < j && j <= cs.len() {
                spec_lex_from(cs, j, l2, cl2)
            } else {
                Err(LexerError::UnexpectedChar { c: c1, pos })
            }
        } else if c1 == '/' && c2 == '*' {
            match spec_block_comment(cs, i + 2, line, col + 2) {
                None => Err(LexerError::CommentNotClosed { pos }),
                Some((j, l2, cl2)) => if i < j && j <= cs.len() {
                    spec_lex_from(cs, j, l2, cl2)
                } else {
                    Err(LexerError::UnexpectedChar { c: c1, pos })
                },
            }
        } else if c1 == '(' {
            spec_lex_tok(cs, i, line, col, Token::LParan, 1)
        } else if c1 == ')' {
            spec_lex_tok(cs, i, line, col, Token::RParan, 1)
        } else if c1 == '[' {
            spec_lex_tok(cs, i, line, col, Token::LBracket, 1)
        } else if c1 == ']' {
            spec_lex_tok(cs, i, line, col, Token::RBracket, 1)
        } else if c1 == '{' {
            spec_lex_tok(cs, i, line, col, Token::LCurly, 1)
        } else if c1 == '}' {
            spec_lex_tok(cs, i, line, col, Token::RCurly, 1)
        } else if c1 == ',' {
            spec_lex_tok(cs, i, line, col, Token::Comma, 1)
        } else if c1 == ':' {
            spec_lex_tok(cs, i, line, col, Token::Colon, 1)
        } else if c1 == ';' {
            spec_lex_tok(cs, i, line, col, Token::SemiColon, 1)
        } else if c1 == '$' {
            spec_lex_tok(cs, i, line, col, Token::DollarSign, 1)
        } else if c1 == '?' && c2 == '?' {
            spec_lex_tok(cs, i, line, col, Token::Coalesce, 2)
        } else if c1 == '?' {
            spec_lex_tok(cs, i, line, col, Token::QuestionMark, 1)
        } else if c1 == '=' && c2 == '=' {
            spec_lex_tok(cs, i, line, col, Token::Equal, 2)
        } else if c1 == '=' && c2 == '>' {
            spec_lex_tok(cs, i, line, col, Token::AssignPath, 2)
        } else if c1 == '=' {
            spec_lex_tok(cs, i, line, col, Token::Assign, 1)
        } else if c1 == '!' && c2 == '=' {
            spec_lex_tok(cs, i, line, col, Token::NotEqual, 2)
        } else if c1 == '!' {
            spec_lex_tok(cs, i, line, col, Token::Not, 1)
        } else if c1 == '<' && c2 == '<' && c3 == '=' {
            spec_lex_tok(cs, i, line, col, Token::BitShiftLeftAssign, 3)
        } else if c1 == '<' && c2 == '<' {
            spec_lex_tok(cs, i, line, col, Token::BitShiftLeft, 2)
        } else if c1 == '<' && c2 == '=' {
            spec_lex_tok(cs, i, line, col, Token::LessEqual, 2)
        } else if c1 == '<' {
            spec_lex_tok(cs, i, line, col, Token::Less, 1)
        } else if c1 == '>' && c2 == '>' && c3 == '=' {
            spec_lex_tok(cs, i, line, col, Token::BitShiftRightAssign, 3)
        } else if c1 == '>' && c2 == '>' {
            spec_lex_tok(cs, i, line, col, Token::BitShiftRight, 2)
        } else if c1 == '>' && c2 == '=' {
            spec_lex_tok(cs, i, line, col, Token::GreaterEqual, 2)
        } else if c1 == '>' {
            spec_lex_tok(cs, i, line, col, Token::Greater, 1)
        } else if c1 == '&' && c2 == '&' {
            spec_lex_tok(cs, i, line, col, Token::And, 2)
        } else if c1 == '&' && c2 == '=' {
            spec_lex_tok(cs, i, line, col, Token::BitAndAssign, 2)
        } else if c1 == '&' {
            spec_lex_tok(cs, i, line, col, Token::BitAnd, 1)
        } else if c1 == '|' && c2 == '|' {
            spec_lex_tok(cs, i, line, col, Token::Or, 2)
        } else if c1 == '|' && c2 == '=' {
            spec_lex_tok(cs, i, line, col, Token::BitOrAssign, 2)
        } else if c1 == '|' {
            spec_lex_tok(cs, i, line, col, Token::BitOr, 1)
        } else if c1 == '^' && c2 == '^' {
            spec_lex_tok(cs, i, line, col, Token::Xor, 2)
        } else if c1 == '^' && c2 == '=' {
            spec_lex_tok(cs, i, line, col, Token::BitXorAssign, 2)
        } else if c1 == '^' {
            spec_lex_tok(cs, i, line, col, Token::BitXor, 1)
        } else if c1 == '*' && c2 == '=' {
            spec_lex_tok(cs, i, line, col, Token::MultiplyAssign, 2)
        } else if c1 == '*' {
            spec_lex_tok(cs, i, line, col, Token::Multiply, 1)
        } else if c1 == '/' && c2 == '=' {
            spec_lex_tok(cs, i, line, col, Token::DivideAssign, 2)
        } else if c1 == '/' {
            spec_lex_tok(cs, i, line, col, Token::Divide, 1)
        } else if c1 == '+' && c2 == '=' {
            spec_lex_tok(cs, i, line, col, Token::AddAssign, 2)
        } else if c1 == '+' {
            spec_lex_tok(cs, i, line, col, Token::Add, 1)
        } else if c1 == '-' && c2 == '=' {
            spec_lex_tok(cs, i, line, col, Token::SubtractAssign, 2)
        } else if c1 == '-' && is_digit(c2) && (i == 0 || is_blank(cs[i - 1])) {
            spec_lex_number(cs, i, line, col)
        } else if c1 == '-' {
            spec_lex_tok(cs, i, line, col, Token::Subtract, 1)
        } else if c1 == '%' && c2 == '=' {
            spec_lex_tok(cs, i, line, col, Token::ModulusAssign, 2)
        } else if c1 == '%' {
            spec_lex_tok(cs, i, line, col, Token::Modulus, 1)
        } else if c1 == '~' && c2 == '=' {
            spec_lex_tok(cs, i, line, col, Token::BitNegateAssign, 2)
        } else if c1 == '~' {
            spec_lex_tok(cs, i, line, col, Token::BitNegate, 1)
        } else if c1 == '.' && c2 == '.' && c3 == '<' {
            spec_lex_tok(cs, i, line, col, Token::RangeExclusive, 3)
        } else if c1 == '.' && c2 == '.' && c3 == '=' {
            spec_lex_tok(cs, i, line, col, Token::RangeInclusive, 3)
        } else if c1 == '.' && c2 == '.' {
            Err(LexerError::RangeMissingEnd { pos })
        } else if c1 == '0' && c2 == 'x' {
            let (ds, j) = spec_hex_digits(cs, i + 2);
            if ds.len() == 0 {
                Err(LexerError::HexEmpty { pos })
            } else {
                spec_lex_span(cs, i, line, col, Token::NumberHex(string_of(ds)), j)
            }
        } else if c1 == '0' && c2 == 'b' {
            let (ds, j) = spec_bin_digits(cs, i + 2);
            if ds.len() == 0 {
                Err(LexerError::BinaryEmpty { pos })
            } else {
                spec_lex_span(cs, i, line, col, Token::NumberBinary(string_of(ds)), j)
            }
        } else if is_digit(c1) {
            spec_lex_number(cs, i, line, col)
        } else if c1 == '\'' {
            match spec_char_lit(cs, i, line, col) {
                Err(e) => Err(e),
                Ok((m, w)) => spec_lex_tok(cs, i, line, col, Token::Character(m), w),
            }
        } else if c1 == '"' {
            match spec_string_chars(cs, i + 1, col + 1, pos) {
                Err(e) => Err(e),
                Ok((body, j)) => spec_lex_span(cs, i, line, col, Token::String(string_of(body)), j),
            }
        } else if c1 == '`' {
            match spec_back_chars(cs, i + 1, line, col + 1, pos) {
                Err(e) => Err(e),
                Ok((body, j, l2, cl2)) => if i < j && j <= cs.len() {
                    lex_acc(
                        seq![PosToken { token: Token::String(string_of(body)), pos }],
                        spec_lex_from(cs, j, l2, cl2),
                    )
                } else {
                    Err(LexerError::UnexpectedChar { c: c1, pos })
                },
            }
        } else if c1 == 'r' && (c2 == '#' || c2 == '"') {
            let n = spec_hash_run(cs, i + 1);
            let qi = i + 1 + n;
            if qi >= cs.len() {
                Err(LexerError::RawStringNotClosed { pos })
            } else if cs[qi] != '"' {
                Err(LexerError::RawStringMissingQuote { pos })
            } else {
                match spec_raw_chars(cs, qi + 1, n, line, col + (qi + 1 - i), pos) {
                    Err(e) => Err(e),
                    Ok((body, j, l2, cl2)) => if i < j && j <= cs.len() {
                        lex_acc(
                            seq![PosToken { token: Token::String(string_of(body)), pos }],
                            spec_lex_from(cs, j, l2, cl2),
                        )
                    } else {
                        Err(LexerError::UnexpectedChar { c: c1, pos })
                    },
                }
            }
        } else if c1 == '#' && is_lower(c2) {
            let (name, j) = spec_lower_chars(cs, i + 1);
            match macro_of(name) {
                None => Err(LexerError::UnknownMacro { pos }),
                Some(mt) => spec_lex_span(cs, i, line, col, Token::Macro(mt), j),
            }
        } else if c1 == '#' {
            Err(LexerError::UnexpectedChar { c: c1, pos })
        } else if c1 == '.' && is_ident_start(c2) {
            spec_lex_tok(cs, i, line, col, Token::Dot, 1)
        } else if c1 == '.' {
            Err(LexerError::UnexpectedChar { c: c1, pos })
        } else if is_ident_start(c1) {
            let (idc, j) = spec_ident_chars(cs, i);
            spec_lex_span(cs, i, line, col, keyword_token(idc), j)
        } else if c1 == ' ' || c1 == '\t' || c1 == '\r' {
            spec_lex_from(cs, i + 1, line, col + 1)
        } else if c1 == '\n' {
            spec_lex_from(cs, i + 1, line + 1, 1)
        } else {
            Err(LexerError::UnexpectedChar { c: c1, pos })
        }
    }
}

/// A decimal numeric literal at the cursor: an optional leading minus sign
/// glued to the digits, then the digit run with at most one decimal point.
pub open spec fn spec_lex_number(cs: Seq<char>, i: int, line: int, col: int) -> Result<
    (Seq<PosToken>, int, int),
    LexerError,
>
    decreases cs.len() - i, 1int,
{
    let neg = peek_at(cs, i) == '-';
    let ds_start = if neg {
        i + 1
    } else {
        i
    };
    match spec_num_digits(cs, ds_start, false) {
        Err(k) => Err(
            LexerError::DecimalMoreThanOnePeriod {
                pos: Pos { line: line as usize, col: (col + (k - i)) as usize },
            },
        ),
        Ok((ds, j)) => {
            let body = if neg {
                seq!['-'] + ds
            } else {
                ds
            };
            spec_lex_span(cs, i, line, col, Token::Number(string_of(body)), j)
        },
    }
}

/// What lexing a whole input yields: its tokens, terminated by exactly one
/// end marker carrying the position where the input ends.
pub open spec fn spec_lex(cs: Seq<char>) -> Result<Seq<PosToken>, LexerError> {
    match spec_lex_from(cs, 0, 1, 1) {
        Err(e) => Err(e),
        Ok((toks, line, col)) => Ok(
            toks.push(
                PosToken { token: Token::EOF, pos: Pos { line: line as usize, col: col as usize } },
            ),
        ),
    }
}

/// Prepending distributes over prepending.
proof fn lemma_lex_acc_assoc(
    a: Seq<PosToken>,
    b: Seq<PosToken>,
    r: Result<(Seq<PosToken>, int, int), LexerError>,
)
    ensures
        lex_acc(a, lex_acc(b, r)) == lex_acc(a + b, r),
{
    match r {
        Ok((t, l, c)) => {
            assert(a + (b + t) =~= (a + b) + t);
        },
        Err(_) => {},
    }
}

/// Line comments end within the input.
proof fn lemma_line_comment_bounds(cs: Seq<char>, i: int, line: int, col: int)
    requires
        0 <= i <= cs.len(),
        line <= i + 1,
        col <= i + 1,
    ensures
        ({
            let (j, l, c) = spec_line_comment(cs, i, line, col);
            i <= j <= cs.len() && l <= j + 1 && c <= j + 1
        }),
    decreases cs.len() - i,
{
    if 0 <= i < cs.len() && cs[i] != '\n' {
        lemma_line_comment_bounds(cs, i + 1, line, col + 1);
    }
}

/// Closed block comments end within the input.
proof fn lemma_block_comment_bounds(cs: Seq<char>, i: int, line: int, col: int)
    requires
        0 <= i <= cs.len(),
        line <= i + 1,
        col <= i + 1,
    ensures
        ({
            match spec_block_comment(cs, i, line, col) {
                Some((j, l, c)) => i < j <= cs.len() && l <= j + 1 && c <= j + 1,
                None => true,
            }
        }),
    decreases cs.len() - i,
{
    if 0 <= i < cs.len() {
        if cs[i] == '*' && peek_at(cs, i + 1) == '/' {
        } else if cs[i] == '\n' {
            lemma_block_comment_bounds(cs, i + 1, line + 1, 1);
        } else {
            lemma_block_comment_bounds(cs, i + 1, line, col + 1);
        }
    }
}

/// Hexadecimal digit runs end within the input.
proof fn lemma_hex_digits_bounds(cs: Seq<char>, i: int)
    requires
        0 <= i <= cs.len(),
    ensures
        i <= spec_hex_digits(cs, i).1 <= cs.len(),
    decreases cs.len() - i,
{
    if 0 <= i < cs.len() {
        lemma_hex_digits_bounds(cs, i + 1);
    }
}

/// Binary digit runs end within the input.
proof fn lemma_bin_digits_bounds(cs: Seq<char>, i: int)
    requires
        0 <= i <= cs.len(),
    ensures
        i <= spec_bin_digits(cs, i).1 <= cs.len(),
    decreases cs.len() - i,
{
    if 0 <= i < cs.len() {
        lemma_bin_digits_bounds(cs, i + 1);
    }
}

/// Decimal digit runs end within the input, and a period fault lies within
/// it.
proof fn lemma_num_digits_bounds(cs: Seq<char>, i: int, period: bool)
    requires
        0 <= i <= cs.len(),
    ensures
        ({
            match spec_num_digits(cs, i, period) {
                Ok((ds, j)) => i <= j <= cs.len(),
                Err(k) => i <= k < cs.len(),
            }
        }),
    decreases cs.len() - i,
{
    if 0 <= i < cs.len() {
        lemma_num_digits_bounds(cs, i + 1, period);
        lemma_num_digits_bounds(cs, i + 1, true);
    }
}

/// Closed string bodies end within the input, past their first character.
proof fn lemma_string_chars_bounds(cs: Seq<char>, i: int, col: int, start: Pos)
    requires
        0 <= i,
    ensures
        ({
            match spec_string_chars(cs, i, col, start) {
                Ok((b, j)) => i < j <= cs.len(),
                Err(_) => true,
            }
        }),
    decreases cs.len() - i,
{
    if 0 <= i < cs.len() {
        if cs[i] == '\\' && i + 1 < cs.len() {
            lemma_string_chars_bounds(cs, i + 2, col + 2, start);
        } else {
            lemma_string_chars_bounds(cs, i + 1, col + 1, start);
        }
    }
}

/// Closed back-quoted string bodies end within the input, with positions
/// bounded by the index.
proof fn lemma_back_chars_bounds(cs: Seq<char>, i: int, line: int, col: int, start: Pos)
    requires
        0 <= i,
        line <= i + 1,
        col <= i + 1,
    ensures
        ({
            match spec_back_chars(cs, i, line, col, start) {
                Ok((b, j, l, c)) => i < j <= cs.len() && l <= j + 1 && c <= j + 1,
                Err(_) => true,
            }
        }),
    decreases cs.len() - i,
{
    if 0 <= i < cs.len() {
        if cs[i] == '\n' {
            lemma_back_chars_bounds(cs, i + 1, line + 1, 1, start);
        } else {
            lemma_back_chars_bounds(cs, i + 1, line, col + 1, start);
        }
    }
}

/// A hash run lies within the input.
proof fn lemma_hash_run_bounds(cs: Seq<char>, i: int)
    requires
        0 <= i,
    ensures
        0 <= spec_hash_run(cs, i),
        i + spec_hash_run(cs, i) <= cs.len() || (i >= cs.len() && spec_hash_run(cs, i) == 0),
    decreases cs.len() - i,
{
    if 0 <= i < cs.len() && cs[i] == '#' {
        lemma_hash_run_bounds(cs, i + 1);
    }
}

/// Closed raw string bodies end within the input, with positions bounded
/// by the index.
proof fn lemma_raw_chars_bounds(cs: Seq<char>, i: int, n: int, line: int, col: int, start: Pos)
    requires
        0 <= i,
        0 <= n,
        line <= i + 1,
        col <= i + 1,
    ensures
        ({
            match spec_raw_chars(cs, i, n, line, col, start) {
                Ok((b, j, l, c)) => i < j <= cs.len() && l <= j + 1 && c <= j + 1,
                Err(_) => true,
            }
        }),
    decreases cs.len() - i, 0int,
{
    if 0 <= i < cs.len() {
        if cs[i] == '"' {
            lemma_raw_close_bounds(cs, i + 1, n, line, col + 1, start);
        } else if cs[i] == '\n' {
            lemma_raw_chars_bounds(cs, i + 1, n, line + 1, 1, start);
        } else {
            lemma_raw_chars_bounds(cs, i + 1, n, line, col + 1, start);
        }
    }
}

/// The closing scan of a raw string ends within the input.
proof fn lemma_raw_close_bounds(cs: Seq<char>, i: int, n: int, line: int, col: int, start: Pos)
    requires
        0 <= i <= cs.len(),
        0 <= n,
        line <= i + 1,
        col <= i + 1,
    ensures
        ({
            match spec_raw_close(cs, i, n, line, col, start) {
                Ok((b, j, l, c)) => i - 1 < j <= cs.len() && l <= j + 1 && c <= j + 1,
                Err(_) => true,
            }
        }),
    decreases cs.len() - i, 1int,
{
    let h = spec_hash_run(cs, i);
    lemma_hash_run_bounds(cs, i);
    if h > n {
    } else if h == n {
        if n > 0 {
            assert(i + h <= cs.len());
        }
    } else {
        if 0 <= h && i + h <= cs.len() {
            lemma_raw_chars_bounds(cs, i + h, n, line, col + h, start);
        }
    }
}

/// Identifier runs end within the input.
proof fn lemma_ident_chars_bounds(cs: Seq<char>, i: int)
    requires
        0 <= i <= cs.len(),
    ensures
        i <= spec_ident_chars(cs, i).1 <= cs.len(),
    decreases cs.len() - i,
{
    if 0 <= i < cs.len() && is_ident_continue(cs[i]) {
        lemma_ident_chars_bounds(cs, i + 1);
    }
}

/// Lower-case runs end within the input.
proof fn lemma_lower_chars_bounds(cs: Seq<char>, i: int)
    requires
        0 <= i <= cs.len(),
    ensures
        i <= spec_lower_chars(cs, i).1 <= cs.len(),
    decreases cs.len() - i,
{
    if 0 <= i < cs.len() && is_lower(cs[i]) {
        lemma_lower_chars_bounds(cs, i + 1);
    }
}

/// The lexer's cursor over the source characters, tracking the 1-based line
/// and column of the character under the cursor.
struct Lexer {
    chars: Vec<char>,
    index: usize,
    line: usize,
    col: usize,
}

impl Lexer {
    spec fn wf(&self) -> bool {
        &&& self.index <= self.chars@.len()
        &&& self.line <= self.index + 1
        &&& self.col <= self.index + 1
        &&& self.chars@.len() < usize::MAX
    }

    fn new(item: &str) -> (r: Self)
        requires
            item@.len() < usize::MAX,
        ensures
            r.wf(),
            r.chars@ == item@,
            r.index == 0 && r.line == 1 && r.col == 1,
    {
        Self { chars: crate::chars_of(item), index: 0, line: 1, col: 1 }
    }

    /// Whether any character is left.
    fn within(&self) -> (r: bool)
        ensures
            r == (self.index < self.chars@.len()),
    {
        self.index < self.chars.len()
    }

    /// The character under the cursor, or the NUL sentinel past the end.
    fn peek(&self) -> (r: char)
        requires
            self.wf(),
        ensures
            r == peek_at(self.chars@, self.index as int),
    {
        self.peek_i(0)
    }

    /// The character `offset` positions ahead, or the NUL sentinel.
    fn peek_i(&self, offset: usize) -> (r: char)
        requires
            self.wf(),
        ensures
            r == peek_at(self.chars@, self.index + offset),
    {
        if offset < self.chars.len() - self.index {
            self.chars[self.index + offset]
        } else {
            '\0'
        }
    }

    /// Advances the cursor `k` characters along the current line.
    fn i(&mut self, k: usize)
        requires
            old(self).wf(),
            old(self).index + k <= old(self).chars@.len(),
        ensures
            final(self).wf(),
            final(self).chars@ == old(self).chars@,
            final(self).index == old(self).index + k,
            final(self).line == old(self).line,
            final(self).col == old(self).col + k,
    {
        self.index += k;
        self.col += k;
    }

    /// Advances the cursor over a newline, onto the next line's first
    /// column.
    fn newline(&mut self)
        requires
            old(self).wf(),
            old(self).index < old(self).chars@.len(),
        ensures
            final(self).wf(),
            final(self).chars@ == old(self).chars@,
            final(self).index == old(self).index + 1,
            final(self).line == old(self).line + 1,
            final(self).col == 1,
    {
        self.index += 1;
        self.line += 1;
        self.col = 1;
    }

    /// The position of the character under the cursor.
    fn current_pos(&self) -> (r: Pos)
        ensures
            r == (Pos { line: self.line, col: self.col }),
    {
        Pos { line: self.line, col: self.col }
    }
}


/// Skips a single-line comment: everything up to and including the newline
/// that ends it, or to the end of input.
fn skip_line_comment(lexer: &mut Lexer)
    requires
        old(lexer).wf(),
        old(lexer).index + 2 <= old(lexer).chars@.len(),
    ensures
        final(lexer).wf(),
        final(lexer).chars@ == old(lexer).chars@,
        (final(lexer).index as int, final(lexer).line as int, final(lexer).col as int)
            == spec_line_comment(
            old(lexer).chars@,
            old(lexer).index + 2,
            old(lexer).line as int,
            old(lexer).col + 2,
        ),
{
    let ghost cs = old(lexer).chars@;
    let ghost i0 = old(lexer).index as int;
    let ghost l0 = old(lexer).line as int;
    let ghost c0 = old(lexer).col as int;
    lexer.i(2);
    while lexer.within()
        invariant
            lexer.wf(),
            lexer.chars@ == cs,
            spec_line_comment(cs, i0 + 2, l0, c0 + 2) == spec_line_comment(
                cs,
                lexer.index as int,
                lexer.line as int,
                lexer.col as int,
            ),
        decreases cs.len() - lexer.index,
    {
        let c = lexer.peek();
        if c == '\n' {
            lexer.newline();
            return ;
        }
        lexer.i(1);
    }
}

/// Skips a multi-line comment body up to and including the closing `*/`,
/// or faults when the input ends first; the fault cites the comment's
/// start.
fn skip_block_comment(lexer: &mut Lexer) -> (r: Result<(), LexerError>)
    requires
        old(lexer).wf(),
        old(lexer).index + 2 <= old(lexer).chars@.len(),
    ensures
        final(lexer).wf(),
        final(lexer).chars@ == old(lexer).chars@,
        ({
            let start = Pos { line: old(lexer).line, col: old(lexer).col };
            match spec_block_comment(
                old(lexer).chars@,
                old(lexer).index + 2,
                old(lexer).line as int,
                old(lexer).col + 2,
            ) {
                None => r == Err::<(), LexerError>(LexerError::CommentNotClosed { pos: start }),
                Some((j, l, c)) => r == Ok::<(), LexerError>(()) && final(lexer).index == j
                    && final(lexer).line == l && final(lexer).col == c,
            }
        }),
{
    let ghost cs = old(lexer).chars@;
    let ghost i0 = old(lexer).index as int;
    let ghost l0 = old(lexer).line as int;
    let ghost c0 = old(lexer).col as int;
    let start = lexer.current_pos();
    lexer.i(2);
    while lexer.within()
        invariant
            lexer.wf(),
            lexer.chars@ == cs,
            spec_block_comment(cs, i0 + 2, l0, c0 + 2) == spec_block_comment(
                cs,
                lexer.index as int,
                lexer.line as int,
                lexer.col as int,
            ),
        decreases cs.len() - lexer.index,
    {
        let c = lexer.peek();
        if c == '*' && lexer.peek_i(1) == '/' {
            lexer.i(2);
            return Ok(());
        }
        if c == '\n' {
            lexer.newline();
        } else {
            lexer.i(1);
        }
    }
    Err(LexerError::CommentNotClosed { pos: start })
}

/// Reads a hexadecimal numeric literal after its `0x` opener: digits
/// folded to lower case, underscores skipped; no digit at all faults.
fn get_hex(lexer: &mut Lexer) -> (r: Result<PosToken, LexerError>)
    requires
        old(lexer).wf(),
        old(lexer).index + 2 <= old(lexer).chars@.len(),
    ensures
        final(lexer).wf(),
        final(lexer).chars@ == old(lexer).chars@,
        final(lexer).line == old(lexer).line,
        ({
            let (ds, j) = spec_hex_digits(old(lexer).chars@, old(lexer).index + 2);
            let pos = Pos { line: old(lexer).line, col: old(lexer).col };
            if ds.len() == 0 {
                r == Err::<PosToken, LexerError>(LexerError::HexEmpty { pos })
            } else {
                r == Ok::<PosToken, LexerError>(
                    PosToken { token: Token::NumberHex(string_of(ds)), pos },
                ) && final(lexer).index == j && final(lexer).col == old(lexer).col + (j - old(
                    lexer,
                ).index)
            }
        }),
{
    let ghost cs = old(lexer).chars@;
    let ghost i0 = old(lexer).index as int;
    let pos = lexer.current_pos();
    lexer.i(2);
    let mut builder: Vec<char> = Vec::new();
    while lexer.within()
        invariant
            lexer.wf(),
            lexer.chars@ == cs,
            lexer.line == old(lexer).line,
            lexer.index >= i0 + 2,
            lexer.col == old(lexer).col + (lexer.index - i0),
            spec_hex_digits(cs, i0 + 2).0 == builder@ + spec_hex_digits(
                cs,
                lexer.index as int,
            ).0,
            spec_hex_digits(cs, i0 + 2).1 == spec_hex_digits(cs, lexer.index as int).1,
        decreases cs.len() - lexer.index,
    {
        let c = lexer.peek();
        if c >= '0' && c <= '9' || c >= 'a' && c <= 'f' {
            let ghost b0 = builder@;
            builder.push(c);
            proof {
                assert(lower_hex(c) == c);
                let (rest, j) = spec_hex_digits(cs, lexer.index + 1);
                assert(b0 + (seq![c] + rest) =~= (b0 + seq![c]) + rest);
            }
            lexer.i(1);
        } else if c >= 'A' && c <= 'F' {
            let lc: char = match c {
                'A' => 'a',
                'B' => 'b',
                'C' => 'c',
                'D' => 'd',
                'E' => 'e',
                _ => 'f',
            };
            let ghost b0 = builder@;
            builder.push(lc);
            proof {
                assert(lower_hex(c) == lc);
                let (rest, j) = spec_hex_digits(cs, lexer.index + 1);
                assert(b0 + (seq![lc] + rest) =~= (b0 + seq![lc]) + rest);
            }
            lexer.i(1);
        } else if c == '_' {
            lexer.i(1);
        } else {
            if builder.len() == 0 {
                return Err(LexerError::HexEmpty { pos });
            }
            let s = string_from_chars(&builder);
            return Ok(PosToken { token: Token::NumberHex(s), pos });
        }
    }
    if builder.len() == 0 {
        return Err(LexerError::HexEmpty { pos });
    }
    let s = string_from_chars(&builder);
    Ok(PosToken { token: Token::NumberHex(s), pos })
}

/// Reads a binary numeric literal after its `0b` opener, underscores
/// skipped; no digit at all faults.
fn get_binary(lexer: &mut Lexer) -> (r: Result<PosToken, LexerError>)
    requires
        old(lexer).wf(),
        old(lexer).index + 2 <= old(lexer).chars@.len(),
    ensures
        final(lexer).wf(),
        final(lexer).chars@ == old(lexer).chars@,
        final(lexer).line == old(lexer).line,
        ({
            let (ds, j) = spec_bin_digits(old(lexer).chars@, old(lexer).index + 2);
            let pos = Pos { line: old(lexer).line, col: old(lexer).col };
            if ds.len() == 0 {
                r == Err::<PosToken, LexerError>(LexerError::BinaryEmpty { pos })
            } else {
                r == Ok::<PosToken, LexerError>(
                    PosToken { token: Token::NumberBinary(string_of(ds)), pos },
                ) && final(lexer).index == j && final(lexer).col == old(lexer).col + (j - old(
                    lexer,
                ).index)
            }
        }),
{
    let ghost cs = old(lexer).chars@;
    let ghost i0 = old(lexer).index as int;
    let pos = lexer.current_pos();
    lexer.i(2);
    let mut builder: Vec<char> = Vec::new();
    while lexer.within()
        invariant
            lexer.wf(),
            lexer.chars@ == cs,
            lexer.line == old(lexer).line,
            lexer.index >= i0 + 2,
            lexer.col == old(lexer).col + (lexer.index - i0),
            spec_bin_digits(cs, i0 + 2).0 == builder@ + spec_bin_digits(
                cs,
                lexer.index as int,
            ).0,
            spec_bin_digits(cs, i0 + 2).1 == spec_bin_digits(cs, lexer.index as int).1,
        decreases cs.len() - lexer.index,
    {
        let c = lexer.peek();
        if c == '0' || c == '1' {
            let ghost b0 = builder@;
            builder.push(c);
            proof {
                let (rest, j) = spec_bin_digits(cs, lexer.index + 1);
                assert(b0 + (seq![c] + rest) =~= (b0 + seq![c]) + rest);
            }
            lexer.i(1);
        } else if c == '_' {
            lexer.i(1);
        } else {
            if builder.len() == 0 {
                return Err(LexerError::BinaryEmpty { pos });
            }
            let s = string_from_chars(&builder);
            return Ok(PosToken { token: Token::NumberBinary(s), pos });
        }
    }
    if builder.len() == 0 {
        return Err(LexerError::BinaryEmpty { pos });
    }
    let s = string_from_chars(&builder);
    Ok(PosToken { token: Token::NumberBinary(s), pos })
}

/// Reads a decimal numeric literal: an optional leading minus sign glued to
/// the digits, digits with at most one decimal point, underscores skipped.
/// A second decimal point faults at its own position.
fn get_number(lexer: &mut Lexer) -> (r: Result<PosToken, LexerError>)
    requires
        old(lexer).wf(),
        old(lexer).index < old(lexer).chars@.len(),
        is_digit(old(lexer).chars@[old(lexer).index as int]) || (old(lexer).chars@[old(
            lexer,
        ).index as int] == '-' && is_digit(peek_at(old(lexer).chars@, old(lexer).index + 1))),
    ensures
        final(lexer).wf(),
        final(lexer).chars@ == old(lexer).chars@,
        final(lexer).line == old(lexer).line,
        ({
            let cs = old(lexer).chars@;
            let i0 = old(lexer).index as int;
            let l0 = old(lexer).line as int;
            let c0 = old(lexer).col as int;
            let neg = cs[i0] == '-';
            let ds_start = if neg { i0 + 1 } else { i0 };
            match spec_num_digits(cs, ds_start, false) {
                Err(k) => r == Err::<PosToken, LexerError>(
                    LexerError::DecimalMoreThanOnePeriod {
                        pos: Pos { line: l0 as usize, col: (c0 + (k - i0)) as usize },
                    },
                ),
                Ok((ds, j)) => {
                    let body = if neg { seq!['-'] + ds } else { ds };
                    r == Ok::<PosToken, LexerError>(
                        PosToken {
                            token: Token::Number(string_of(body)),
                            pos: Pos { line: l0 as usize, col: c0 as usize },
                        },
                    ) && final(lexer).index == j && final(lexer).col == c0 + (j - i0)
                },
            }
        }),
{
    let ghost cs = old(lexer).chars@;
    let ghost i0 = old(lexer).index as int;
    let pos = lexer.current_pos();
    let neg = lexer.peek() == '-';
    if neg {
        lexer.i(1);
    }
    let ghost ds_start = lexer.index as int;
    let mut digits: Vec<char> = Vec::new();
    let mut period = false;
    while lexer.within()
        invariant
            lexer.wf(),
            lexer.chars@ == cs,
            lexer.line == old(lexer).line,
            lexer.index >= ds_start,
            ds_start == if cs[i0] == '-' { i0 + 1 } else { i0 },
            lexer.col == old(lexer).col + (lexer.index - i0),
            spec_num_digits(cs, ds_start, false) == (match spec_num_digits(
                cs,
                lexer.index as int,
                period,
            ) {
                Ok((rest, j)) => Ok::<(Seq<char>, int), int>((digits@ + rest, j)),
                Err(k) => Err::<(Seq<char>, int), int>(k),
            }),
        decreases cs.len() - lexer.index,
    {
        let c = lexer.peek();
        if c >= '0' && c <= '9' {
            let ghost b0 = digits@;
            digits.push(c);
            proof {
                assert(digits@ =~= b0 + seq![c]);
                match spec_num_digits(cs, lexer.index + 1, period) {
                    Ok((rest, j)) => {
                        assert(b0 + (seq![c] + rest) =~= (b0 + seq![c]) + rest);
                    },
                    Err(_) => {},
                }
            }
            lexer.i(1);
        } else if c == '.' && lexer.peek_i(1) >= '0' && lexer.peek_i(1) <= '9' {
            if period {
                return Err(
                    LexerError::DecimalMoreThanOnePeriod { pos: lexer.current_pos() },
                );
            }
            let ghost b0 = digits@;
            digits.push(c);
            proof {
                assert(digits@ =~= b0 + seq![c]);
                match spec_num_digits(cs, lexer.index + 1, true) {
                    Ok((rest, j)) => {
                        assert(b0 + (seq![c] + rest) =~= (b0 + seq![c]) + rest);
                    },
                    Err(_) => {},
                }
            }
            period = true;
            lexer.i(1);
        } else if c == '_' {
            lexer.i(1);
        } else {
        let body: Vec<char> = if neg {
            let mut b: Vec<char> = Vec::new();
            b.push('-');
            let mut digits = digits;
            b.append(&mut digits);
            proof {
                match spec_num_digits(cs, ds_start, false) {
                    Ok((ds, j)) => {
                        assert(b@ =~= seq!['-'] + ds);
                    },
                    Err(_) => {},
                }
            }
            b
        } else {
            digits
        };
        let s = string_from_chars(&body);
        return Ok(PosToken { token: Token::Number(s), pos });
        }
    }
    let body: Vec<char> = if neg {
        let mut b: Vec<char> = Vec::new();
        b.push('-');
        let mut digits = digits;
        b.append(&mut digits);
        proof {
            match spec_num_digits(cs, ds_start, false) {
                Ok((ds, j)) => {
                    assert(b@ =~= seq!['-'] + ds);
                },
                Err(_) => {},
            }
        }
        b
    } else {
        digits
    };
    let s = string_from_chars(&body);
    Ok(PosToken { token: Token::Number(s), pos })
}

/// The character a backslash escape stands for, or `None` for an
/// unescapable one.
fn escape_exec(c: char) -> (r: Option<char>)
    ensures
        r == escape_char(c),
{
    match c {
        'n' => Some('\n'),
        't' => Some('\t'),
        '\\' => Some('\\'),
        '\'' => Some('\''),
        '"' => Some('"'),
        _ => None,
    }
}

/// Reads a character literal: a plain character or a backslash escape
/// between single quotes.
fn get_char(lexer: &mut Lexer) -> (r: Result<PosToken, LexerError>)
    requires
        old(lexer).wf(),
        old(lexer).index < old(lexer).chars@.len(),
    ensures
        final(lexer).wf(),
        final(lexer).chars@ == old(lexer).chars@,
        final(lexer).line == old(lexer).line,
        ({
            let cs = old(lexer).chars@;
            let i0 = old(lexer).index as int;
            let pos = Pos { line: old(lexer).line, col: old(lexer).col };
            match spec_char_lit(cs, i0, old(lexer).line as int, old(lexer).col as int) {
                Err(e) => r == Err::<PosToken, LexerError>(e),
                Ok((m, w)) => r == Ok::<PosToken, LexerError>(
                    PosToken { token: Token::Character(m), pos },
                ) && final(lexer).index == i0 + w && final(lexer).col == old(lexer).col + w,
            }
        }),
{
    let pos = lexer.current_pos();
    let c2 = lexer.peek_i(1);
    let c3 = lexer.peek_i(2);
    if c2 == '\\' {
        if lexer.index + 2 >= lexer.chars.len() {
            return Err(LexerError::CharNotClosed { pos });
        }
        match escape_exec(c3) {
            None => Err(
                LexerError::CharBadEscape { c: c3, pos: Pos::new(lexer.line, lexer.col + 2) },
            ),
            Some(m) => {
                if lexer.peek_i(3) == '\'' {
                    lexer.i(4);
                    Ok(PosToken { token: Token::Character(m), pos })
                } else {
                    Err(LexerError::CharNotClosed { pos })
                }
            },
        }
    } else if c2 == '\'' {
        Err(LexerError::CharEmpty { pos })
    } else if lexer.index + 1 >= lexer.chars.len() || c2 == '\n' {
        Err(LexerError::CharNotClosed { pos })
    } else if lexer.peek_i(2) == '\'' {
        lexer.i(3);
        Ok(PosToken { token: Token::Character(c2), pos })
    } else {
        Err(LexerError::CharNotClosed { pos })
    }
}

/// Reads a double-quoted string literal: plain characters and backslash
/// escapes up to the closing quote, all on one line.
fn get_string(lexer: &mut Lexer) -> (r: Result<PosToken, LexerError>)
    requires
        old(lexer).wf(),
        old(lexer).index < old(lexer).chars@.len(),
    ensures
        final(lexer).wf(),
        final(lexer).chars@ == old(lexer).chars@,
        final(lexer).line == old(lexer).line,
        ({
            let cs = old(lexer).chars@;
            let i0 = old(lexer).index as int;
            let pos = Pos { line: old(lexer).line, col: old(lexer).col };
            match spec_string_chars(cs, i0 + 1, old(lexer).col + 1, pos) {
                Err(e) => r == Err::<PosToken, LexerError>(e),
                Ok((body, j)) => r == Ok::<PosToken, LexerError>(
                    PosToken { token: Token::String(string_of(body)), pos },
                ) && final(lexer).index == j && final(lexer).col == old(lexer).col + (j - i0),
            }
        }),
{
    let ghost cs = old(lexer).chars@;
    let ghost i0 = old(lexer).index as int;
    let pos = lexer.current_pos();
    lexer.i(1);
    let mut builder: Vec<char> = Vec::new();
    loop
        invariant
            lexer.wf(),
            lexer.chars@ == cs,
            lexer.line == old(lexer).line,
            lexer.index >= i0 + 1,
            lexer.col == old(lexer).col + (lexer.index - i0),
            spec_string_chars(cs, i0 + 1, old(lexer).col + 1, pos) == (match spec_string_chars(
                cs,
                lexer.index as int,
                lexer.col as int,
                pos,
            ) {
                Ok((rest, j)) => Ok::<(Seq<char>, int), LexerError>((builder@ + rest, j)),
                Err(e) => Err::<(Seq<char>, int), LexerError>(e),
            }),
        decreases cs.len() - lexer.index,
    {
        if !lexer.within() {
            return Err(LexerError::StringNotClosed { pos });
        }
        let c = lexer.peek();
        if c == '"' {
            lexer.i(1);
            proof {
                assert(builder@ + Seq::<char>::empty() =~= builder@);
            }
            let s = string_from_chars(&builder);
            return Ok(PosToken { token: Token::String(s), pos });
        }
        if c == '\\' {
            if lexer.index + 1 >= lexer.chars.len() {
                return Err(LexerError::StringNotClosed { pos });
            }
            let e = lexer.peek_i(1);
            match escape_exec(e) {
                None => {
                    return Err(
                        LexerError::StringBadEscape {
                            c: e,
                            pos: Pos::new(lexer.line, lexer.col + 1),
                        },
                    );
                },
                Some(m) => {
                    let ghost b0 = builder@;
                    builder.push(m);
                    proof {
                        assert(builder@ =~= b0 + seq![m]);
                        match spec_string_chars(cs, lexer.index + 2, lexer.col + 2, pos) {
                            Ok((rest, j)) => {
                                assert(b0 + (seq![m] + rest) =~= (b0 + seq![m]) + rest);
                            },
                            Err(_) => {},
                        }
                    }
                    lexer.i(2);
                },
            }
        } else if c == '\n' {
            return Err(LexerError::StringNotClosed { pos });
        } else {
            let ghost b0 = builder@;
            builder.push(c);
            proof {
                assert(builder@ =~= b0 + seq![c]);
                match spec_string_chars(cs, lexer.index + 1, lexer.col + 1, pos) {
                    Ok((rest, j)) => {
                        assert(b0 + (seq![c] + rest) =~= (b0 + seq![c]) + rest);
                    },
                    Err(_) => {},
                }
            }
            lexer.i(1);
        }
    }
}

/// Reads a back-quoted string literal: every character up to the closing
/// back quote, newlines included.
fn get_back_string(lexer: &mut Lexer) -> (r: Result<PosToken, LexerError>)
    requires
        old(lexer).wf(),
        old(lexer).index < old(lexer).chars@.len(),
    ensures
        final(lexer).wf(),
        final(lexer).chars@ == old(lexer).chars@,
        ({
            let cs = old(lexer).chars@;
            let i0 = old(lexer).index as int;
            let pos = Pos { line: old(lexer).line, col: old(lexer).col };
            match spec_back_chars(cs, i0 + 1, old(lexer).line as int, old(lexer).col + 1, pos) {
                Err(e) => r == Err::<PosToken, LexerError>(e),
                Ok((body, j, l, c)) => r == Ok::<PosToken, LexerError>(
                    PosToken { token: Token::String(string_of(body)), pos },
                ) && final(lexer).index == j && final(lexer).line == l && final(lexer).col == c,
            }
        }),
{
    let ghost cs = old(lexer).chars@;
    let ghost i0 = old(lexer).index as int;
    let pos = lexer.current_pos();
    lexer.i(1);
    let mut builder: Vec<char> = Vec::new();
    loop
        invariant
            lexer.wf(),
            lexer.chars@ == cs,
            lexer.index >= i0 + 1,
            spec_back_chars(cs, i0 + 1, old(lexer).line as int, old(lexer).col + 1, pos) == (
            match spec_back_chars(cs, lexer.index as int, lexer.line as int, lexer.col as int, pos) {
                Ok((rest, j, l, c)) => Ok::<(Seq<char>, int, int, int), LexerError>(
                    (builder@ + rest, j, l, c),
                ),
                Err(e) => Err::<(Seq<char>, int, int, int), LexerError>(e),
            }),
        decreases cs.len() - lexer.index,
    {
        if !lexer.within() {
            return Err(LexerError::BackStringNotClosed { pos });
        }
        let c = lexer.peek();
        if c == '`' {
            lexer.i(1);
            proof {
                assert(builder@ + Seq::<char>::empty() =~= builder@);
            }
            let s = string_from_chars(&builder);
            return Ok(PosToken { token: Token::String(s), pos });
        }
        let ghost b0 = builder@;
        builder.push(c);
        proof {
            assert(builder@ =~= b0 + seq![c]);
            let nl: int = if c == '\n' { lexer.line + 1 } else { lexer.line as int };
            let nc: int = if c == '\n' { 1 } else { lexer.col + 1 };
            match spec_back_chars(cs, lexer.index + 1, nl, nc, pos) {
                Ok((rest, j, l, cc)) => {
                    assert(b0 + (seq![c] + rest) =~= (b0 + seq![c]) + rest);
                },
                Err(_) => {},
            }
        }
        if c == '\n' {
            lexer.newline();
        } else {
            lexer.i(1);
        }
    }
}


/// How many consecutive hash marks stand `off` characters ahead of the
/// cursor.
fn hash_run(lexer: &Lexer, off: usize) -> (h: usize)
    requires
        lexer.wf(),
        lexer.index + off <= lexer.chars@.len(),
    ensures
        h == spec_hash_run(lexer.chars@, lexer.index + off),
        lexer.index + off + h <= lexer.chars@.len(),
{
    let ghost cs = lexer.chars@;
    let ghost base = lexer.index + off;
    let mut k: usize = 0;
    while lexer.peek_i(off + k) == '#'
        invariant
            off + k <= usize::MAX,
            lexer.index + off + k <= cs.len(),
            spec_hash_run(cs, base as int) == k + spec_hash_run(cs, base + k),
        decreases cs.len() - (lexer.index + off + k),
    {
        k += 1;
    }
    proof {
        assert(spec_hash_run(cs, base + k) == 0);
    }
    k
}

/// Reads a raw string literal: `r`, hashes, the opening quote, then
/// content up to a quote followed by exactly as many hashes.
fn get_raw_string(lexer: &mut Lexer) -> (r: Result<PosToken, LexerError>)
    requires
        old(lexer).wf(),
        old(lexer).index + 1 <= old(lexer).chars@.len(),
    ensures
        final(lexer).wf(),
        final(lexer).chars@ == old(lexer).chars@,
        ({
            let cs = old(lexer).chars@;
            let i0 = old(lexer).index as int;
            let pos = Pos { line: old(lexer).line, col: old(lexer).col };
            let n = spec_hash_run(cs, i0 + 1);
            let qi = i0 + 1 + n;
            if qi >= cs.len() {
                r == Err::<PosToken, LexerError>(LexerError::RawStringNotClosed { pos })
            } else if cs[qi] != '"' {
                r == Err::<PosToken, LexerError>(LexerError::RawStringMissingQuote { pos })
            } else {
                match spec_raw_chars(
                    cs,
                    qi + 1,
                    n,
                    old(lexer).line as int,
                    old(lexer).col + (qi + 1 - i0),
                    pos,
                ) {
                    Err(e) => r == Err::<PosToken, LexerError>(e),
                    Ok((body, j, l, c)) => r == Ok::<PosToken, LexerError>(
                        PosToken { token: Token::String(string_of(body)), pos },
                    ) && final(lexer).index == j && final(lexer).line == l && final(lexer).col
                        == c,
                }
            }
        }),
{
    let ghost cs = old(lexer).chars@;
    let ghost i0 = old(lexer).index as int;
    let pos = lexer.current_pos();
    let n = hash_run(lexer, 1);
    let ghost qi = i0 + 1 + n;
    if lexer.index + 1 + n >= lexer.chars.len() {
        return Err(LexerError::RawStringNotClosed { pos });
    }
    if lexer.peek_i(1 + n) != '"' {
        return Err(LexerError::RawStringMissingQuote { pos });
    }
    lexer.i(2 + n);
    let mut builder: Vec<char> = Vec::new();
    loop
        invariant
            lexer.wf(),
            lexer.chars@ == cs,
            n <= cs.len(),
            spec_raw_chars(cs, qi + 1, n as int, old(lexer).line as int, old(lexer).col + (qi + 1
                - i0), pos) == (match spec_raw_chars(
                cs,
                lexer.index as int,
                n as int,
                lexer.line as int,
                lexer.col as int,
                pos,
            ) {
                Ok((rest, j, l, c)) => Ok::<(Seq<char>, int, int, int), LexerError>(
                    (builder@ + rest, j, l, c),
                ),
                Err(e) => Err::<(Seq<char>, int, int, int), LexerError>(e),
            }),
        decreases cs.len() - lexer.index,
    {
        if !lexer.within() {
            return Err(LexerError::RawStringNotClosed { pos });
        }
        let c = lexer.peek();
        if c == '"' {
            let ghost close_i = lexer.index + 1;
            let ghost close_col = lexer.col + 1;
            let h = hash_run(lexer, 1);
            if h > n {
                return Err(LexerError::RawStringTooManyHashes { pos: lexer.current_pos() });
            } else if h == n {
                proof {
                    assert(cs[lexer.index as int] == '"');
                    assert(spec_raw_chars(
                        cs,
                        lexer.index as int,
                        n as int,
                        lexer.line as int,
                        lexer.col as int,
                        pos,
                    ) == spec_raw_close(
                        cs,
                        lexer.index + 1,
                        n as int,
                        lexer.line as int,
                        lexer.col + 1,
                        pos,
                    ));
                    assert(spec_hash_run(cs, lexer.index + 1) == h);
                    assert(spec_raw_close(
                        cs,
                        lexer.index + 1,
                        n as int,
                        lexer.line as int,
                        lexer.col + 1,
                        pos,
                    ) == Ok::<(Seq<char>, int, int, int), LexerError>(
                        (Seq::empty(), lexer.index + 1 + n, lexer.line as int, lexer.col + 1 + n),
                    ));
                    assert(builder@ + Seq::<char>::empty() =~= builder@);
                }
                lexer.i(1 + n);
                let s = string_from_chars(&builder);
                return Ok(PosToken { token: Token::String(s), pos });
            } else {
                let ghost b0 = builder@;
                builder.push('"');
                let mut k: usize = 0;
                while k < h
                    invariant
                        k <= h,
                        builder@ == b0 + seq!['"'] + Seq::new(k as nat, |x: int| '#'),
                    decreases h - k,
                {
                    builder.push('#');
                    proof {
                        assert(builder@ =~= b0 + seq!['"'] + Seq::new((k + 1) as nat, |x: int| '#'));
                    }
                    k += 1;
                }
                proof {
                    let hseq = Seq::new(h as nat, |x: int| '#');
                    match spec_raw_chars(cs, close_i + h, n as int, lexer.line as int, close_col
                        + h, pos) {
                        Ok((rest, j, l, c2)) => {
                            assert(b0 + ((seq!['"'] + hseq) + rest) =~= ((b0 + seq!['"'] + hseq))
                                + rest);
                        },
                        Err(_) => {},
                    }
                }
                lexer.i(1 + h);
            }
        } else {
            let ghost b0 = builder@;
            builder.push(c);
            proof {
                assert(builder@ =~= b0 + seq![c]);
                let nl: int = if c == '\n' { lexer.line + 1 } else { lexer.line as int };
                let nc: int = if c == '\n' { 1 } else { lexer.col + 1 };
                match spec_raw_chars(cs, lexer.index + 1, n as int, nl, nc, pos) {
                    Ok((rest, j, l, c2)) => {
                        assert(b0 + (seq![c] + rest) =~= (b0 + seq![c]) + rest);
                    },
                    Err(_) => {},
                }
            }
            if c == '\n' {
                lexer.newline();
            } else {
                lexer.i(1);
            }
        }
    }
}

/// Reads an identifier and resolves it to a keyword token or an identifier
/// token carrying its name.
fn get_ident(lexer: &mut Lexer) -> (r: PosToken)
    requires
        old(lexer).wf(),
        old(lexer).index < old(lexer).chars@.len(),
    ensures
        final(lexer).wf(),
        final(lexer).chars@ == old(lexer).chars@,
        final(lexer).line == old(lexer).line,
        ({
            let cs = old(lexer).chars@;
            let i0 = old(lexer).index as int;
            let (idc, j) = spec_ident_chars(cs, i0);
            r == (PosToken {
                token: keyword_token(idc),
                pos: Pos { line: old(lexer).line, col: old(lexer).col },
            }) && final(lexer).index == j && final(lexer).col == old(lexer).col + (j - i0)
        }),
{
    let ghost cs = old(lexer).chars@;
    let ghost i0 = old(lexer).index as int;
    let pos = lexer.current_pos();
    let mut builder: Vec<char> = Vec::new();
    while lexer.within()
        invariant
            lexer.wf(),
            lexer.chars@ == cs,
            lexer.line == old(lexer).line,
            lexer.index >= i0,
            lexer.col == old(lexer).col + (lexer.index - i0),
            spec_ident_chars(cs, i0).0 == builder@ + spec_ident_chars(cs, lexer.index as int).0,
            spec_ident_chars(cs, i0).1 == spec_ident_chars(cs, lexer.index as int).1,
        decreases cs.len() - lexer.index,
    {
        let c = lexer.peek();
        if c == '_' || c >= 'a' && c <= 'z' || c >= 'A' && c <= 'Z' || c >= '0' && c <= '9' || c
            == '-' {
            let ghost b0 = builder@;
            builder.push(c);
            proof {
                assert(builder@ =~= b0 + seq![c]);
                let (rest, j) = spec_ident_chars(cs, lexer.index + 1);
                assert(b0 + (seq![c] + rest) =~= (b0 + seq![c]) + rest);
            }
            lexer.i(1);
        } else {
            break;
        }
    }
    proof {
        assert(builder@ + Seq::<char>::empty() =~= builder@);
    }
    let s = string_from_chars(&builder);
    let token = keyword_of(s);
    PosToken { token, pos }
}

/// The keyword a name spells, or an identifier token carrying the name.
/// The name must be the collected string of its own characters, so the
/// identifier token it may carry is pinned down.
fn keyword_of(s: String) -> (r: Token)
    requires
        s == string_of(s@),
    ensures
        r == keyword_token(s@),
{
    if s == "const".to_owned() {
        Token::Const
    } else if s == "let".to_owned() {
        Token::Let
    } else if s == "var".to_owned() {
        Token::Var
    } else if s == "true".to_owned() {
        Token::True
    } else if s == "false".to_owned() {
        Token::False
    } else if s == "enum".to_owned() {
        Token::Enum
    } else if s == "struct".to_owned() {
        Token::Struct
    } else if s == "rec".to_owned() {
        Token::Recursive
    } else if s == "fn".to_owned() {
        Token::Function
    } else if s == "return".to_owned() {
        Token::Return
    } else if s == "ret".to_owned() {
        Token::ScopeReturn
    } else if s == "trait".to_owned() {
        Token::Trait
    } else if s == "impl".to_owned() {
        Token::Implement
    } else if s == "where".to_owned() {
        Token::Where
    } else if s == "try".to_owned() {
        Token::Try
    } else if s == "if".to_owned() {
        Token::If
    } else if s == "guard".to_owned() {
        Token::Guard
    } else if s == "else".to_owned() {
        Token::Else
    } else if s == "switch".to_owned() {
        Token::Switch
    } else if s == "while".to_owned() {
        Token::While
    } else if s == "for".to_owned() {
        Token::For
    } else if s == "in".to_owned() {
        Token::In
    } else if s == "break".to_owned() {
        Token::Break
    } else if s == "mod".to_owned() {
        Token::Module
    } else if s == "pub".to_owned() {
        Token::Public
    } else {
        Token::Ident(s)
    }
}

/// Reads a macro directive: `#` and a lower-case name; an unknown name
/// faults.
fn get_macro(lexer: &mut Lexer) -> (r: Result<PosToken, LexerError>)
    requires
        old(lexer).wf(),
        old(lexer).index < old(lexer).chars@.len(),
    ensures
        final(lexer).wf(),
        final(lexer).chars@ == old(lexer).chars@,
        final(lexer).line == old(lexer).line,
        ({
            let cs = old(lexer).chars@;
            let i0 = old(lexer).index as int;
            let pos = Pos { line: old(lexer).line, col: old(lexer).col };
            let (name, j) = spec_lower_chars(cs, i0 + 1);
            match macro_of(name) {
                None => r == Err::<PosToken, LexerError>(LexerError::UnknownMacro { pos }),
                Some(mt) => r == Ok::<PosToken, LexerError>(
                    PosToken { token: Token::Macro(mt), pos },
                ) && final(lexer).index == j && final(lexer).col == old(lexer).col + (j - i0),
            }
        }),
{
    let ghost cs = old(lexer).chars@;
    let ghost i0 = old(lexer).index as int;
    let pos = lexer.current_pos();
    lexer.i(1);
    let mut builder: Vec<char> = Vec::new();
    while lexer.within()
        invariant
            lexer.wf(),
            lexer.chars@ == cs,
            lexer.line == old(lexer).line,
            lexer.index >= i0 + 1,
            lexer.col == old(lexer).col + (lexer.index - i0),
            spec_lower_chars(cs, i0 + 1).0 == builder@ + spec_lower_chars(
                cs,
                lexer.index as int,
            ).0,
            spec_lower_chars(cs, i0 + 1).1 == spec_lower_chars(cs, lexer.index as int).1,
        decreases cs.len() - lexer.index,
    {
        let c = lexer.peek();
        if c >= 'a' && c <= 'z' {
            let ghost b0 = builder@;
            builder.push(c);
            proof {
                assert(builder@ =~= b0 + seq![c]);
                let (rest, j) = spec_lower_chars(cs, lexer.index + 1);
                assert(b0 + (seq![c] + rest) =~= (b0 + seq![c]) + rest);
            }
            lexer.i(1);
        } else {
            break;
        }
    }
    proof {
        assert(builder@ + Seq::<char>::empty() =~= builder@);
    }
    let s = string_from_chars(&builder);
    let mt: Option<MacroToken> = if s == "config".to_owned() {
        Some(MacroToken::Config)
    } else if s == "use".to_owned() {
        Some(MacroToken::Use)
    } else if s == "triplet".to_owned() {
        Some(MacroToken::Triplet)
    } else if s == "os".to_owned() {
        Some(MacroToken::OS)
    } else if s == "family".to_owned() {
        Some(MacroToken::Family)
    } else if s == "arch".to_owned() {
        Some(MacroToken::Arch)
    } else if s == "comptime".to_owned() {
        Some(MacroToken::CompTime)
    } else if s == "testtime".to_owned() {
        Some(MacroToken::TestTime)
    } else if s == "bytes".to_owned() {
        Some(MacroToken::Bytes)
    } else if s == "map".to_owned() {
        Some(MacroToken::MapMacro)
    } else if s == "set".to_owned() {
        Some(MacroToken::SetMacro)
    } else if s == "regex".to_owned() {
        Some(MacroToken::Regex)
    } else {
        None
    };
    match mt {
        Some(mt) => Ok(PosToken { token: Token::Macro(mt), pos }),
        None => Err(LexerError::UnknownMacro { pos }),
    }
}

/// The character just before the cursor.
fn prev_char(lexer: &Lexer) -> (r: char)
    requires
        lexer.wf(),
        1 <= lexer.index < lexer.chars@.len(),
    ensures
        r == lexer.chars@[lexer.index - 1],
{
    lexer.chars[lexer.index - 1]
}


/// Punches one fixed-width token: pushes it and advances the cursor,
/// keeping the whole-input lexing account in balance.
fn punch(
    lexer: &mut Lexer,
    tokens: &mut Vec<PosToken>,
    t: Token,
    w: usize,
    Ghost(cs): Ghost<Seq<char>>,
)
    requires
        old(lexer).wf(),
        old(lexer).chars@ == cs,
        1 <= w,
        old(lexer).index + w <= cs.len(),
        spec_lex_from(cs, old(lexer).index as int, old(lexer).line as int, old(lexer).col as int)
            == spec_lex_tok(
            cs,
            old(lexer).index as int,
            old(lexer).line as int,
            old(lexer).col as int,
            t,
            w as int,
        ),
        spec_lex_from(cs, 0, 1, 1) == lex_acc(
            old(tokens)@,
            spec_lex_from(
                cs,
                old(lexer).index as int,
                old(lexer).line as int,
                old(lexer).col as int,
            ),
        ),
    ensures
        final(lexer).wf(),
        final(lexer).chars@ == cs,
        final(lexer).index == old(lexer).index + w,
        spec_lex_from(cs, 0, 1, 1) == lex_acc(
            final(tokens)@,
            spec_lex_from(
                cs,
                final(lexer).index as int,
                final(lexer).line as int,
                final(lexer).col as int,
            ),
        ),
{
    let ghost toks0 = tokens@;
    let pt = PosToken { token: t, pos: lexer.current_pos() };
    let ghost ptg = pt;
    tokens.push(pt);
    lexer.i(w);
    proof {
        lemma_lex_acc_assoc(
            toks0,
            seq![ptg],
            spec_lex_from(cs, lexer.index as int, lexer.line as int, lexer.col as int),
        );
        assert(tokens@ =~= toks0 + seq![ptg]);
    }
}

/// One lexing step: reads the token or skipped stretch that starts at the
/// cursor and keeps the whole-input account in balance, or returns the
/// input's lexical fault.
#[verifier::rlimit(100)]
fn lex_step(lexer: &mut Lexer, tokens: &mut Vec<PosToken>, Ghost(cs): Ghost<Seq<char>>) -> (r:
    Result<(), LexerError>)
    requires
        old(lexer).wf(),
        old(lexer).chars@ == cs,
        old(lexer).index < cs.len(),
        spec_lex_from(cs, 0, 1, 1) == lex_acc(
            old(tokens)@,
            spec_lex_from(
                cs,
                old(lexer).index as int,
                old(lexer).line as int,
                old(lexer).col as int,
            ),
        ),
    ensures
        final(lexer).wf(),
        final(lexer).chars@ == cs,
        match r {
            Ok(()) => final(lexer).index > old(lexer).index && spec_lex_from(cs, 0, 1, 1)
                == lex_acc(
                final(tokens)@,
                spec_lex_from(
                    cs,
                    final(lexer).index as int,
                    final(lexer).line as int,
                    final(lexer).col as int,
                ),
            ),
            Err(e) => spec_lex_from(cs, 0, 1, 1) == Err::<(Seq<PosToken>, int, int), LexerError>(
                e,
            ),
        },
{
    let ghost toks0 = tokens@;
    let ghost i0 = lexer.index as int;
    let ghost l0 = lexer.line as int;
    let ghost c0 = lexer.col as int;
    let c1 = lexer.peek();
    let c2 = lexer.peek_i(1);
    let c3 = lexer.peek_i(2);
        if c1 == '/' && c2 == '/' {
            skip_line_comment(lexer);
            proof {
                lemma_line_comment_bounds(cs, i0 + 2, l0, c0 + 2);
            }
        } else if c1 == '/' && c2 == '*' {
            match skip_block_comment(lexer) {
                Err(e) => {
                    return Err(e);
                },
                Ok(()) => {
                    proof {
                        lemma_block_comment_bounds(cs, i0 + 2, l0, c0 + 2);
                    }
                },
            }
        } else if c1 == '(' {
            punch(lexer, tokens, Token::LParan, 1, Ghost(cs));
        } else if c1 == ')' {
            punch(lexer, tokens, Token::RParan, 1, Ghost(cs));
        } else if c1 == '[' {
            punch(lexer, tokens, Token::LBracket, 1, Ghost(cs));
        } else if c1 == ']' {
            punch(lexer, tokens, Token::RBracket, 1, Ghost(cs));
        } else if c1 == '{' {
            punch(lexer, tokens, Token::LCurly, 1, Ghost(cs));
        } else if c1 == '}' {
            punch(lexer, tokens, Token::RCurly, 1, Ghost(cs));
        } else if c1 == ',' {
            punch(lexer, tokens, Token::Comma, 1, Ghost(cs));
        } else if c1 == ':' {
            punch(lexer, tokens, Token::Colon, 1, Ghost(cs));
        } else if c1 == ';' {
            punch(lexer, tokens, Token::SemiColon, 1, Ghost(cs));
        } else if c1 == '$' {
            punch(lexer, tokens, Token::DollarSign, 1, Ghost(cs));
        } else if c1 == '?' && c2 == '?' {
            punch(lexer, tokens, Token::Coalesce, 2, Ghost(cs));
        } else if c1 == '?' {
            punch(lexer, tokens, Token::QuestionMark, 1, Ghost(cs));
        } else if c1 == '=' && c2 == '=' {
            punch(lexer, tokens, Token::Equal, 2, Ghost(cs));
        } else if c1 == '=' && c2 == '>' {
            punch(lexer, tokens, Token::AssignPath, 2, Ghost(cs));
        } else if c1 == '=' {
            punch(lexer, tokens, Token::Assign, 1, Ghost(cs));
        } else if c1 == '!' && c2 == '=' {
            punch(lexer, tokens, Token::NotEqual, 2, Ghost(cs));
        } else if c1 == '!' {
            punch(lexer, tokens, Token::Not, 1, Ghost(cs));
        } else if c1 == '<' && c2 == '<' && c3 == '=' {
            punch(lexer, tokens, Token::BitShiftLeftAssign, 3, Ghost(cs));
        } else if c1 == '<' && c2 == '<' {
            punch(lexer, tokens, Token::BitShiftLeft, 2, Ghost(cs));
        } else if c1 == '<' && c2 == '=' {
            punch(lexer, tokens, Token::LessEqual, 2, Ghost(cs));
        } else if c1 == '<' {
            punch(lexer, tokens, Token::Less, 1, Ghost(cs));
        } else if c1 == '>' && c2 == '>' && c3 == '=' {
            punch(lexer, tokens, Token::BitShiftRightAssign, 3, Ghost(cs));
        } else if c1 == '>' && c2 == '>' {
            punch(lexer, tokens, Token::BitShiftRight, 2, Ghost(cs));
        } else if c1 == '>' && c2 == '=' {
            punch(lexer, tokens, Token::GreaterEqual, 2, Ghost(cs));
        } else if c1 == '>' {
            punch(lexer, tokens, Token::Greater, 1, Ghost(cs));
        } else if c1 == '&' && c2 == '&' {
            punch(lexer, tokens, Token::And, 2, Ghost(cs));
        } else if c1 == '&' && c2 == '=' {
            punch(lexer, tokens, Token::BitAndAssign, 2, Ghost(cs));
        } else if c1 == '&' {
            punch(lexer, tokens, Token::BitAnd, 1, Ghost(cs));
        } else if c1 == '|' && c2 == '|' {
            punch(lexer, tokens, Token::Or, 2, Ghost(cs));
        } else if c1 == '|' && c2 == '=' {
            punch(lexer, tokens, Token::BitOrAssign, 2, Ghost(cs));
        } else if c1 == '|' {
            punch(lexer, tokens, Token::BitOr, 1, Ghost(cs));
        } else if c1 == '^' && c2 == '^' {
            punch(lexer, tokens, Token::Xor, 2, Ghost(cs));
        } else if c1 == '^' && c2 == '=' {
            punch(lexer, tokens, Token::BitXorAssign, 2, Ghost(cs));
        } else if c1 == '^' {
            punch(lexer, tokens, Token::BitXor, 1, Ghost(cs));
        } else {
            return lex_step_rest(lexer, tokens, Ghost(cs));
        }
    Ok(())
}

/// The lexing step for the token shapes the first dispatch half does not
/// cover: the remaining operators, numeric literals, character and string
/// literals, macro directives, identifiers and blanks.
#[verifier::rlimit(100)]
fn lex_step_rest(lexer: &mut Lexer, tokens: &mut Vec<PosToken>, Ghost(cs): Ghost<Seq<char>>) -> (r:
    Result<(), LexerError>)
    requires
        old(lexer).wf(),
        old(lexer).chars@ == cs,
        old(lexer).index < cs.len(),
        ({
            let c1 = cs[old(lexer).index as int];
            let c2 = peek_at(cs, old(lexer).index + 1);
            &&& !(c1 == '/' && (c2 == '/' || c2 == '*'))
            &&& c1 != '(' && c1 != ')' && c1 != '[' && c1 != ']' && c1 != '{' && c1 != '}'
            &&& c1 != ',' && c1 != ':' && c1 != ';' && c1 != '$' && c1 != '?' && c1 != '='
            &&& c1 != '!' && c1 != '<' && c1 != '>' && c1 != '&' && c1 != '|' && c1 != '^'
        }),
        spec_lex_from(cs, 0, 1, 1) == lex_acc(
            old(tokens)@,
            spec_lex_from(
                cs,
                old(lexer).index as int,
                old(lexer).line as int,
                old(lexer).col as int,
            ),
        ),
    ensures
        final(lexer).wf(),
        final(lexer).chars@ == cs,
        match r {
            Ok(()) => final(lexer).index > old(lexer).index && spec_lex_from(cs, 0, 1, 1)
                == lex_acc(
                final(tokens)@,
                spec_lex_from(
                    cs,
                    final(lexer).index as int,
                    final(lexer).line as int,
                    final(lexer).col as int,
                ),
            ),
            Err(e) => spec_lex_from(cs, 0, 1, 1) == Err::<(Seq<PosToken>, int, int), LexerError>(
                e,
            ),
        },
{
    let ghost toks0 = tokens@;
    let ghost i0 = lexer.index as int;
    let ghost l0 = lexer.line as int;
    let ghost c0 = lexer.col as int;
    let c1 = lexer.peek();
    let c2 = lexer.peek_i(1);
    let c3 = lexer.peek_i(2);
        if c1 == '*' && c2 == '=' {
            punch(lexer, tokens, Token::MultiplyAssign, 2, Ghost(cs));
        } else if c1 == '*' {
            punch(lexer, tokens, Token::Multiply, 1, Ghost(cs));
        } else if c1 == '/' && c2 == '=' {
            punch(lexer, tokens, Token::DivideAssign, 2, Ghost(cs));
        } else if c1 == '/' {
            punch(lexer, tokens, Token::Divide, 1, Ghost(cs));
        } else if c1 == '+' && c2 == '=' {
            punch(lexer, tokens, Token::AddAssign, 2, Ghost(cs));
        } else if c1 == '+' {
            punch(lexer, tokens, Token::Add, 1, Ghost(cs));
        } else if c1 == '-' && c2 == '=' {
            punch(lexer, tokens, Token::SubtractAssign, 2, Ghost(cs));
        } else if c1 == '-' && c2 >= '0' && c2 <= '9' {
            let glue = if lexer.index == 0 {
                true
            } else {
                let p = prev_char(lexer);
                p == ' ' || p == '\t' || p == '\r' || p == '\n'
            };
            if glue {
                proof {
                    assert(spec_lex_from(cs, i0, l0, c0) == spec_lex_number(cs, i0, l0, c0));
                }
                match get_number(lexer) {
                    Err(e) => {
                        proof {
                            assert(spec_lex_from(cs, 0, 1, 1) == Err::<
                                (Seq<PosToken>, int, int),
                                LexerError,
                            >(e));
                        }
                        return Err(e);
                    },
                    Ok(pt) => {
                        let ghost ptg = pt;
                        tokens.push(pt);
                        proof {
                            lemma_num_digits_bounds(cs, i0 + 1, false);
                        assert(spec_lex_span(cs, i0, l0, c0, ptg.token, lexer.index as int)
                            == lex_acc(
                            seq![ptg],
                            spec_lex_from(
                                cs,
                                lexer.index as int,
                                lexer.line as int,
                                lexer.col as int,
                            ),
                        ));
                            lemma_lex_acc_assoc(
                                toks0,
                                seq![ptg],
                                spec_lex_from(
                                    cs,
                                    lexer.index as int,
                                    lexer.line as int,
                                    lexer.col as int,
                                ),
                            );
                            assert(tokens@ =~= toks0 + seq![ptg]);
                        }
                    },
                }
            } else {
                punch(lexer, tokens, Token::Subtract, 1, Ghost(cs));
            }
        } else if c1 == '-' {
            punch(lexer, tokens, Token::Subtract, 1, Ghost(cs));
        } else if c1 == '%' && c2 == '=' {
            punch(lexer, tokens, Token::ModulusAssign, 2, Ghost(cs));
        } else if c1 == '%' {
            punch(lexer, tokens, Token::Modulus, 1, Ghost(cs));
        } else if c1 == '~' && c2 == '=' {
            punch(lexer, tokens, Token::BitNegateAssign, 2, Ghost(cs));
        } else if c1 == '~' {
            punch(lexer, tokens, Token::BitNegate, 1, Ghost(cs));
        } else if c1 == '.' && c2 == '.' && c3 == '<' {
            punch(lexer, tokens, Token::RangeExclusive, 3, Ghost(cs));
        } else if c1 == '.' && c2 == '.' && c3 == '=' {
            punch(lexer, tokens, Token::RangeInclusive, 3, Ghost(cs));
        } else if c1 == '.' && c2 == '.' {
            return Err(LexerError::RangeMissingEnd { pos: lexer.current_pos() });
        } else {
            return lex_step_num(lexer, tokens, Ghost(cs));
        }
    Ok(())
}

/// The lexing step for numeric literals of every radix.
#[verifier::rlimit(100)]
fn lex_step_num(lexer: &mut Lexer, tokens: &mut Vec<PosToken>, Ghost(cs): Ghost<Seq<char>>) -> (r:
    Result<(), LexerError>)
    requires
        old(lexer).wf(),
        old(lexer).chars@ == cs,
        old(lexer).index < cs.len(),
        ({
            let c1 = cs[old(lexer).index as int];
            let c2 = peek_at(cs, old(lexer).index + 1);
            &&& !(c1 == '/' && (c2 == '/' || c2 == '*'))
            &&& c1 != '(' && c1 != ')' && c1 != '[' && c1 != ']' && c1 != '{' && c1 != '}'
            &&& c1 != ',' && c1 != ':' && c1 != ';' && c1 != '$' && c1 != '?' && c1 != '='
            &&& c1 != '!' && c1 != '<' && c1 != '>' && c1 != '&' && c1 != '|' && c1 != '^'
        }),
        ({
            let c1 = cs[old(lexer).index as int];
            let c2 = peek_at(cs, old(lexer).index + 1);
            &&& c1 != '/' && c1 != '*' && c1 != '+' && c1 != '-' && c1 != '%' && c1 != '~'
            &&& !(c1 == '.' && c2 == '.')
        }),
        spec_lex_from(cs, 0, 1, 1) == lex_acc(
            old(tokens)@,
            spec_lex_from(
                cs,
                old(lexer).index as int,
                old(lexer).line as int,
                old(lexer).col as int,
            ),
        ),
    ensures
        final(lexer).wf(),
        final(lexer).chars@ == cs,
        match r {
            Ok(()) => final(lexer).index > old(lexer).index && spec_lex_from(cs, 0, 1, 1)
                == lex_acc(
                final(tokens)@,
                spec_lex_from(
                    cs,
                    final(lexer).index as int,
                    final(lexer).line as int,
                    final(lexer).col as int,
                ),
            ),
            Err(e) => spec_lex_from(cs, 0, 1, 1) == Err::<(Seq<PosToken>, int, int), LexerError>(
                e,
            ),
        },
{
    let ghost toks0 = tokens@;
    let ghost i0 = lexer.index as int;
    let ghost l0 = lexer.line as int;
    let ghost c0 = lexer.col as int;
    let c1 = lexer.peek();
    let c2 = lexer.peek_i(1);
    if c1 == '0' && c2 == 'x' {
            match get_hex(lexer) {
                Err(e) => {
                    return Err(e);
                },
                Ok(pt) => {
                    let ghost ptg = pt;
                    tokens.push(pt);
                    proof {
                        lemma_hex_digits_bounds(cs, i0 + 2);
                        assert(spec_lex_span(cs, i0, l0, c0, ptg.token, lexer.index as int)
                            == lex_acc(
                            seq![ptg],
                            spec_lex_from(
                                cs,
                                lexer.index as int,
                                lexer.line as int,
                                lexer.col as int,
                            ),
                        ));
                        lemma_lex_acc_assoc(
                            toks0,
                            seq![ptg],
                            spec_lex_from(
                                cs,
                                lexer.index as int,
                                lexer.line as int,
                                lexer.col as int,
                            ),
                        );
                        assert(tokens@ =~= toks0 + seq![ptg]);
                    }
                },
            }
        } else if c1 == '0' && c2 == 'b' {
            proof {
                let (ds, j) = spec_bin_digits(cs, i0 + 2);
                if ds.len() == 0 {
                    assert(spec_lex_from(cs, i0, l0, c0) == Err::<
                        (Seq<PosToken>, int, int),
                        LexerError,
                    >(LexerError::BinaryEmpty { pos: Pos { line: l0 as usize, col: c0 as usize } }));
                } else {
                    assert(spec_lex_from(cs, i0, l0, c0) == spec_lex_span(
                        cs,
                        i0,
                        l0,
                        c0,
                        Token::NumberBinary(string_of(ds)),
                        j,
                    ));
                }
            }
            match get_binary(lexer) {
                Err(e) => {
                    proof {
                        assert(spec_lex_from(cs, 0, 1, 1) == Err::<
                            (Seq<PosToken>, int, int),
                            LexerError,
                        >(e));
                    }
                    return Err(e);
                },
                Ok(pt) => {
                    let ghost ptg = pt;
                    tokens.push(pt);
                    proof {
                        lemma_bin_digits_bounds(cs, i0 + 2);
                        assert(spec_lex_span(cs, i0, l0, c0, ptg.token, lexer.index as int)
                            == lex_acc(
                            seq![ptg],
                            spec_lex_from(
                                cs,
                                lexer.index as int,
                                lexer.line as int,
                                lexer.col as int,
                            ),
                        ));
                        lemma_lex_acc_assoc(
                            toks0,
                            seq![ptg],
                            spec_lex_from(
                                cs,
                                lexer.index as int,
                                lexer.line as int,
                                lexer.col as int,
                            ),
                        );
                        assert(tokens@ =~= toks0 + seq![ptg]);
                    }
                },
            }
        } else if c1 >= '0' && c1 <= '9' {
            proof {
                assert(spec_lex_from(cs, i0, l0, c0) == spec_lex_number(cs, i0, l0, c0));
            }
            match get_number(lexer) {
                Err(e) => {
                    proof {
                        assert(spec_lex_number(cs, i0, l0, c0) == Err::<(Seq<PosToken>, int, int), LexerError>(e));
                        assert(spec_lex_from(cs, 0, 1, 1) == Err::<(Seq<PosToken>, int, int), LexerError>(e));
                    }
                    return Err(e);
                },
                Ok(pt) => {
                    let ghost ptg = pt;
                    tokens.push(pt);
                    proof {
                        lemma_num_digits_bounds(cs, i0, false);
                        lemma_num_digits_bounds(cs, i0 + 1, false);
                        assert(spec_lex_span(cs, i0, l0, c0, ptg.token, lexer.index as int)
                            == lex_acc(
                            seq![ptg],
                            spec_lex_from(
                                cs,
                                lexer.index as int,
                                lexer.line as int,
                                lexer.col as int,
                            ),
                        ));
                        lemma_lex_acc_assoc(
                            toks0,
                            seq![ptg],
                            spec_lex_from(
                                cs,
                                lexer.index as int,
                                lexer.line as int,
                                lexer.col as int,
                            ),
                        );
                        assert(tokens@ =~= toks0 + seq![ptg]);
                    }
                },
            }
        } else {
            return lex_step_lit(lexer, tokens, Ghost(cs));
        }
    Ok(())
}

/// The lexing step for character, string and raw-string literals, macro
/// directives, the member dot, identifiers, blanks, and the fault for any
/// character that starts no token.
#[verifier::rlimit(100)]
fn lex_step_lit(lexer: &mut Lexer, tokens: &mut Vec<PosToken>, Ghost(cs): Ghost<Seq<char>>) -> (r:
    Result<(), LexerError>)
    requires
        old(lexer).wf(),
        old(lexer).chars@ == cs,
        old(lexer).index < cs.len(),
        !is_digit(cs[old(lexer).index as int]),
        spec_lex_from(cs, 0, 1, 1) == lex_acc(
            old(tokens)@,
            spec_lex_from(
                cs,
                old(lexer).index as int,
                old(lexer).line as int,
                old(lexer).col as int,
            ),
        ),
        ({
            let c1 = cs[old(lexer).index as int];
            let c2 = peek_at(cs, old(lexer).index + 1);
            let c3 = peek_at(cs, old(lexer).index + 2);
            &&& c1 != '/' && c1 != '(' && c1 != ')' && c1 != '[' && c1 != ']' && c1 != '{'
            &&& c1 != '}' && c1 != ',' && c1 != ':' && c1 != ';' && c1 != '$' && c1 != '?'
            &&& c1 != '=' && c1 != '!' && c1 != '<' && c1 != '>' && c1 != '&' && c1 != '|'
            &&& c1 != '^' && c1 != '*' && c1 != '+' && c1 != '-' && c1 != '%' && c1 != '~'
            &&& !(c1 == '.' && c2 == '.')
            &&& !(c1 == '0' && (c2 == 'x' || c2 == 'b'))
        }),
    ensures
        final(lexer).wf(),
        final(lexer).chars@ == cs,
        match r {
            Ok(()) => final(lexer).index > old(lexer).index && spec_lex_from(cs, 0, 1, 1)
                == lex_acc(
                final(tokens)@,
                spec_lex_from(
                    cs,
                    final(lexer).index as int,
                    final(lexer).line as int,
                    final(lexer).col as int,
                ),
            ),
            Err(e) => spec_lex_from(cs, 0, 1, 1) == Err::<(Seq<PosToken>, int, int), LexerError>(
                e,
            ),
        },
{
    let ghost toks0 = tokens@;
    let ghost i0 = lexer.index as int;
    let ghost l0 = lexer.line as int;
    let ghost c0 = lexer.col as int;
    let c1 = lexer.peek();
    let c2 = lexer.peek_i(1);
    let c3 = lexer.peek_i(2);
    if c1 == '\'' {
            proof {
                match spec_char_lit(cs, i0, l0, c0) {
                    Err(e) => {
                        assert(spec_lex_from(cs, i0, l0, c0) == Err::<
                            (Seq<PosToken>, int, int),
                            LexerError,
                        >(e));
                    },
                    Ok((m, w)) => {
                        assert(spec_lex_from(cs, i0, l0, c0) == spec_lex_tok(
                            cs,
                            i0,
                            l0,
                            c0,
                            Token::Character(m),
                            w,
                        ));
                    },
                }
            }
            match get_char(lexer) {
                Err(e) => {
                    proof {
                        assert(spec_lex_from(cs, 0, 1, 1) == Err::<
                            (Seq<PosToken>, int, int),
                            LexerError,
                        >(e));
                    }
                    return Err(e);
                },
                Ok(pt) => {
                    let ghost ptg = pt;
                    tokens.push(pt);
                    proof {
                        assert(spec_lex_tok(cs, i0, l0, c0, ptg.token, lexer.index - i0)
                            == lex_acc(
                            seq![ptg],
                            spec_lex_from(
                                cs,
                                lexer.index as int,
                                lexer.line as int,
                                lexer.col as int,
                            ),
                        ));
                        lemma_lex_acc_assoc(
                            toks0,
                            seq![ptg],
                            spec_lex_from(
                                cs,
                                lexer.index as int,
                                lexer.line as int,
                                lexer.col as int,
                            ),
                        );
                        assert(tokens@ =~= toks0 + seq![ptg]);
                    }
                },
            }
        } else if c1 == '"' {
            proof {
                let pos = Pos { line: l0 as usize, col: c0 as usize };
                match spec_string_chars(cs, i0 + 1, c0 + 1, pos) {
                    Err(e) => {
                        assert(spec_lex_from(cs, i0, l0, c0) == Err::<
                            (Seq<PosToken>, int, int),
                            LexerError,
                        >(e));
                    },
                    Ok((body, j)) => {
                        assert(spec_lex_from(cs, i0, l0, c0) == spec_lex_span(
                            cs,
                            i0,
                            l0,
                            c0,
                            Token::String(string_of(body)),
                            j,
                        ));
                    },
                }
            }
            match get_string(lexer) {
                Err(e) => {
                    proof {
                        assert(spec_lex_from(cs, 0, 1, 1) == Err::<
                            (Seq<PosToken>, int, int),
                            LexerError,
                        >(e));
                    }
                    return Err(e);
                },
                Ok(pt) => {
                    let ghost ptg = pt;
                    tokens.push(pt);
                    proof {
                        lemma_string_chars_bounds(cs, i0 + 1, c0 + 1, ptg.pos);
                        assert(spec_lex_span(cs, i0, l0, c0, ptg.token, lexer.index as int)
                            == lex_acc(
                            seq![ptg],
                            spec_lex_from(
                                cs,
                                lexer.index as int,
                                lexer.line as int,
                                lexer.col as int,
                            ),
                        ));
                        lemma_lex_acc_assoc(
                            toks0,
                            seq![ptg],
                            spec_lex_from(
                                cs,
                                lexer.index as int,
                                lexer.line as int,
                                lexer.col as int,
                            ),
                        );
                        assert(tokens@ =~= toks0 + seq![ptg]);
                    }
                },
            }
        } else if c1 == '`' {
            proof {
                let pos = Pos { line: l0 as usize, col: c0 as usize };
                match spec_back_chars(cs, i0 + 1, l0, c0 + 1, pos) {
                    Err(e) => {
                        assert(spec_lex_from(cs, i0, l0, c0) == Err::<
                            (Seq<PosToken>, int, int),
                            LexerError,
                        >(e));
                    },
                    Ok((body, j, l2, cl2)) => {
                        lemma_back_chars_bounds(cs, i0 + 1, l0, c0 + 1, pos);
                        assert(spec_lex_from(cs, i0, l0, c0) == lex_acc(
                            seq![PosToken { token: Token::String(string_of(body)), pos }],
                            spec_lex_from(cs, j, l2, cl2),
                        ));
                    },
                }
            }
            match get_back_string(lexer) {
                Err(e) => {
                    proof {
                        assert(spec_lex_from(cs, 0, 1, 1) == Err::<
                            (Seq<PosToken>, int, int),
                            LexerError,
                        >(e));
                    }
                    return Err(e);
                },
                Ok(pt) => {
                    let ghost ptg = pt;
                    tokens.push(pt);
                    proof {
                        lemma_back_chars_bounds(cs, i0 + 1, l0, c0 + 1, ptg.pos);
                        lemma_lex_acc_assoc(
                            toks0,
                            seq![ptg],
                            spec_lex_from(
                                cs,
                                lexer.index as int,
                                lexer.line as int,
                                lexer.col as int,
                            ),
                        );
                        assert(tokens@ =~= toks0 + seq![ptg]);
                    }
                },
            }
        } else if c1 == 'r' && (c2 == '#' || c2 == '"') {
            proof {
                let pos = Pos { line: l0 as usize, col: c0 as usize };
                let n = spec_hash_run(cs, i0 + 1);
                let qi = i0 + 1 + n;
                lemma_hash_run_bounds(cs, i0 + 1);
                if qi < cs.len() && cs[qi] == '"' {
                    match spec_raw_chars(cs, qi + 1, n, l0, c0 + (qi + 1 - i0), pos) {
                        Err(e) => {
                            assert(spec_lex_from(cs, i0, l0, c0) == Err::<
                                (Seq<PosToken>, int, int),
                                LexerError,
                            >(e));
                        },
                        Ok((body, j, l2, cl2)) => {
                            lemma_raw_chars_bounds(cs, qi + 1, n, l0, c0 + (qi + 1 - i0), pos);
                            assert(spec_lex_from(cs, i0, l0, c0) == lex_acc(
                                seq![PosToken { token: Token::String(string_of(body)), pos }],
                                spec_lex_from(cs, j, l2, cl2),
                            ));
                        },
                    }
                }
            }
            match get_raw_string(lexer) {
                Err(e) => {
                    proof {
                        assert(spec_lex_from(cs, 0, 1, 1) == Err::<
                            (Seq<PosToken>, int, int),
                            LexerError,
                        >(e));
                    }
                    return Err(e);
                },
                Ok(pt) => {
                    let ghost ptg = pt;
                    tokens.push(pt);
                    proof {
                        lemma_hash_run_bounds(cs, i0 + 1);
                        let n = spec_hash_run(cs, i0 + 1);
                        lemma_raw_chars_bounds(cs, i0 + 1 + n + 1, n, l0, c0 + (n + 2), ptg.pos);
                        lemma_lex_acc_assoc(
                            toks0,
                            seq![ptg],
                            spec_lex_from(
                                cs,
                                lexer.index as int,
                                lexer.line as int,
                                lexer.col as int,
                            ),
                        );
                        assert(tokens@ =~= toks0 + seq![ptg]);
                    }
                },
            }
        } else if c1 == '#' && c2 >= 'a' && c2 <= 'z' {
            proof {
                let pos = Pos { line: l0 as usize, col: c0 as usize };
                let (name, j) = spec_lower_chars(cs, i0 + 1);
                lemma_lower_chars_bounds(cs, i0 + 1);
                match macro_of(name) {
                    None => {
                        assert(spec_lex_from(cs, i0, l0, c0) == Err::<
                            (Seq<PosToken>, int, int),
                            LexerError,
                        >(LexerError::UnknownMacro { pos }));
                    },
                    Some(mt) => {
                        assert(spec_lex_from(cs, i0, l0, c0) == spec_lex_span(
                            cs,
                            i0,
                            l0,
                            c0,
                            Token::Macro(mt),
                            j,
                        ));
                    },
                }
            }
            match get_macro(lexer) {
                Err(e) => {
                    proof {
                        assert(spec_lex_from(cs, 0, 1, 1) == Err::<
                            (Seq<PosToken>, int, int),
                            LexerError,
                        >(e));
                    }
                    return Err(e);
                },
                Ok(pt) => {
                    let ghost ptg = pt;
                    tokens.push(pt);
                    proof {
                        lemma_lower_chars_bounds(cs, i0 + 1);
                        assert(spec_lex_span(cs, i0, l0, c0, ptg.token, lexer.index as int)
                            == lex_acc(
                            seq![ptg],
                            spec_lex_from(
                                cs,
                                lexer.index as int,
                                lexer.line as int,
                                lexer.col as int,
                            ),
                        ));
                        lemma_lex_acc_assoc(
                            toks0,
                            seq![ptg],
                            spec_lex_from(
                                cs,
                                lexer.index as int,
                                lexer.line as int,
                                lexer.col as int,
                            ),
                        );
                        assert(tokens@ =~= toks0 + seq![ptg]);
                    }
                },
            }
        } else if c1 == '#' {
            return Err(LexerError::UnexpectedChar { c: c1, pos: lexer.current_pos() });
        } else if c1 == '.' && (c2 == '_' || c2 >= 'a' && c2 <= 'z' || c2 >= 'A' && c2 <= 'Z') {
            punch(lexer, tokens, Token::Dot, 1, Ghost(cs));
        } else if c1 == '.' {
            return Err(LexerError::UnexpectedChar { c: c1, pos: lexer.current_pos() });
        } else if c1 == '_' || c1 >= 'a' && c1 <= 'z' || c1 >= 'A' && c1 <= 'Z' {
            proof {
                let (idc, j) = spec_ident_chars(cs, i0);
                lemma_ident_chars_bounds(cs, i0);
                assert(spec_lex_from(cs, i0, l0, c0) == spec_lex_span(
                    cs,
                    i0,
                    l0,
                    c0,
                    keyword_token(idc),
                    j,
                ));
            }
            let pt = get_ident(lexer);
            let ghost ptg = pt;
            tokens.push(pt);
            proof {
                lemma_ident_chars_bounds(cs, i0);
                lemma_ident_chars_bounds(cs, i0 + 1);
                assert(spec_lex_span(cs, i0, l0, c0, ptg.token, lexer.index as int) == lex_acc(
                    seq![ptg],
                    spec_lex_from(cs, lexer.index as int, lexer.line as int, lexer.col as int),
                ));
                lemma_lex_acc_assoc(
                    toks0,
                    seq![ptg],
                    spec_lex_from(cs, lexer.index as int, lexer.line as int, lexer.col as int),
                );
                assert(tokens@ =~= toks0 + seq![ptg]);
            }
        } else if c1 == ' ' || c1 == '\t' || c1 == '\r' {
            lexer.i(1);
        } else if c1 == '\n' {
            lexer.newline();
        } else {
            return Err(LexerError::UnexpectedChar { c: c1, pos: lexer.current_pos() });
        }
    Ok(())
}

/// Turns source text into its token sequence, ending in exactly one
/// end-of-stream marker, or fails with the input's first lexical fault.
/// Re-reading never changes the outcome: the tokens are a function of the
/// text alone.
pub fn lex(contents: &str) -> (r: Result<Vec<PosToken>, LexerError>)
    requires
        contents@.len() < usize::MAX,
    ensures
        match r {
            Ok(toks) => spec_lex(contents@) == Ok::<Seq<PosToken>, LexerError>(toks@),
            Err(e) => spec_lex(contents@) == Err::<Seq<PosToken>, LexerError>(e),
        },
{
    let ghost cs = contents@;
    let mut lexer = Lexer::new(contents);
    let mut tokens: Vec<PosToken> = Vec::new();
    proof {
        match spec_lex_from(cs, 0, 1, 1) {
            Ok((t, l, c)) => {
                assert(tokens@ + t =~= t);
            },
            Err(_) => {},
        }
    }
    while lexer.within()
        invariant
            lexer.wf(),
            lexer.chars@ == cs,
            spec_lex_from(cs, 0, 1, 1) == lex_acc(
                tokens@,
                spec_lex_from(cs, lexer.index as int, lexer.line as int, lexer.col as int),
            ),
        decreases cs.len() - lexer.index,
    {
        match lex_step(&mut lexer, &mut tokens, Ghost(cs)) {
            Err(e) => {
                return Err(e);
            },
            Ok(()) => {},
        }
    }
    proof {
        assert(tokens@ + Seq::<PosToken>::empty() =~= tokens@);
    }
    let eof = PosToken { token: Token::EOF, pos: lexer.current_pos() };
    tokens.push(eof);
    Ok(tokens)
}
} // verus!

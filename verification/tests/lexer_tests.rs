use kot::lexer::{lex, LexerError};
use kot::token::{MacroToken, Token};
use kot::Pos;

#[test]
fn lexer_only_single_line_comment() {
    let tokens = lex(r##"// Single line comment life
                                                      // // // // Single
                                                      // Comment!!!       "##)
    .unwrap();
    assert_eq!(tokens.len(), 1);
    assert_eq!(tokens[0].token, Token::EOF);
}

#[test]
fn lexer_get_hex() {
    let tokens = lex(r##"0x1aAfFd90398536_24438f___12DDFffff"##).unwrap();
    assert_eq!(tokens.len(), 2);
    assert_eq!(
        tokens[0].token,
        Token::NumberHex("1aaffd9039853624438f12ddfffff".to_string())
    );
}

#[test]
fn lexer_get_binary() {
    let tokens = lex(r##"0b1010__10000_01_01_011111___11101"##).unwrap();
    assert_eq!(tokens.len(), 2);
    assert_eq!(
        tokens[0].token,
        Token::NumberBinary("101010000010101111111101".to_string())
    );
}

#[test]
fn lexer_get_numbers() {
    let tokens = lex(r##"100 -110 3 1 -1 -0 -12 234__123 1_322 -1_234567689"##).unwrap();
    assert_eq!(tokens.len(), 11);
    assert_eq!(tokens[0].token, Token::Number("100".to_string()));
    assert_eq!(tokens[1].token, Token::Number("-110".to_string()));
    assert_eq!(tokens[2].token, Token::Number("3".to_string()));
    assert_eq!(tokens[3].token, Token::Number("1".to_string()));
    assert_eq!(tokens[4].token, Token::Number("-1".to_string()));
    assert_eq!(tokens[5].token, Token::Number("-0".to_string()));
    assert_eq!(tokens[6].token, Token::Number("-12".to_string()));
    assert_eq!(tokens[7].token, Token::Number("234123".to_string()));
    assert_eq!(tokens[8].token, Token::Number("1322".to_string()));
    assert_eq!(tokens[9].token, Token::Number("-1234567689".to_string()));
}

#[test]
fn lexer_blank() {
    let _ = lex(r##""##);
}

#[test]
fn test_only_single_line_comment() {
    let tokens = lex(r##"// Single line comment life
                                                      // // // // Single
                                                      // Comment!!!       "##)
    .unwrap();
    assert_eq!(tokens.len(), 1);
    assert_eq!(tokens[0].token, Token::EOF);
}

#[test]
fn test_get_hex() {
    let tokens = lex(r##"0x1aAfFd90398536_24438f___12DDFffff"##).unwrap();
    assert_eq!(tokens.len(), 2);
    assert_eq!(
        tokens[0].token,
        Token::NumberHex("1aaffd9039853624438f12ddfffff".to_string())
    );
}

#[test]
fn test_get_binary() {
    let tokens = lex(r##"0b1010__10000_01_01_011111___11101"##).unwrap();
    assert_eq!(tokens.len(), 2);
    assert_eq!(
        tokens[0].token,
        Token::NumberBinary("101010000010101111111101".to_string())
    );
}

#[test]
fn test_get_numbers() {
    let tokens = lex(r##"100 -110 3 1 -1 -0 -12 234__123 1_322 -1_234567689"##).unwrap();
    assert_eq!(tokens.len(), 11);
    assert_eq!(tokens[0].token, Token::Number("100".to_string()));
    assert_eq!(tokens[1].token, Token::Number("-110".to_string()));
    assert_eq!(tokens[2].token, Token::Number("3".to_string()));
    assert_eq!(tokens[3].token, Token::Number("1".to_string()));
    assert_eq!(tokens[4].token, Token::Number("-1".to_string()));
    assert_eq!(tokens[5].token, Token::Number("-0".to_string()));
    assert_eq!(tokens[6].token, Token::Number("-12".to_string()));
    assert_eq!(tokens[7].token, Token::Number("234123".to_string()));
    assert_eq!(tokens[8].token, Token::Number("1322".to_string()));
    assert_eq!(tokens[9].token, Token::Number("-1234567689".to_string()));
}

#[test]
fn test_blank() {
    let _ = lex(r##""##);
}

#[test]
fn test_dec_multi_period() {
    let lexer = lex(r"12.334.1");
    assert_eq!(
        lexer.err().unwrap(),
        LexerError::DecimalMoreThanOnePeriod {
            pos: Pos::new(1, 7)
        }
    );
}

#[test]
fn test_multi() {
    lex("1 == 1").unwrap();
    lex("1 != 11").unwrap();
    lex("1!=1").unwrap();
}

#[test]
fn lexer_token_positions() {
    let tokens = lex("1 +\n 22").unwrap();
    assert_eq!(tokens.len(), 4);
    assert_eq!(tokens[0].pos, Pos::new(1, 1));
    assert_eq!(tokens[1].token, Token::Add);
    assert_eq!(tokens[1].pos, Pos::new(1, 3));
    assert_eq!(tokens[2].token, Token::Number("22".to_string()));
    assert_eq!(tokens[2].pos, Pos::new(2, 2));
    assert_eq!(tokens[3].token, Token::EOF);
    assert_eq!(tokens[3].pos, Pos::new(2, 4));
}

#[test]
fn lexer_keywords_and_idents() {
    let tokens = lex("let x-y = true").unwrap();
    assert_eq!(tokens[0].token, Token::Let);
    assert_eq!(tokens[1].token, Token::Ident("x-y".to_string()));
    assert_eq!(tokens[2].token, Token::Assign);
    assert_eq!(tokens[3].token, Token::True);
    assert_eq!(tokens[4].token, Token::EOF);
}

#[test]
fn lexer_operators() {
    let tokens = lex("<<= >> ..< ..= ^^ ?? => ~=").unwrap();
    assert_eq!(tokens[0].token, Token::BitShiftLeftAssign);
    assert_eq!(tokens[1].token, Token::BitShiftRight);
    assert_eq!(tokens[2].token, Token::RangeExclusive);
    assert_eq!(tokens[3].token, Token::RangeInclusive);
    assert_eq!(tokens[4].token, Token::Xor);
    assert_eq!(tokens[5].token, Token::Coalesce);
    assert_eq!(tokens[6].token, Token::AssignPath);
    assert_eq!(tokens[7].token, Token::BitNegateAssign);
    // a bare '.' before an identifier is the member dot
    let t2 = lex(".spawn").unwrap();
    assert_eq!(t2[0].token, Token::Dot);
    assert_eq!(t2[1].token, Token::Ident("spawn".to_string()));
}

#[test]
fn lexer_char_and_string_literals() {
    let tokens = lex(r#"'a' '\n' "hi\t there" `back
line`"#)
        .unwrap();
    assert_eq!(tokens[0].token, Token::Character('a'));
    assert_eq!(tokens[1].token, Token::Character('\n'));
    assert_eq!(tokens[2].token, Token::String("hi\t there".to_string()));
    assert_eq!(tokens[3].token, Token::String("back\nline".to_string()));
}

#[test]
fn lexer_raw_strings() {
    let tokens = lex(r####"r"plain" r#" quoted " here "#"####).unwrap();
    assert_eq!(tokens[0].token, Token::String("plain".to_string()));
    assert_eq!(tokens[1].token, Token::String(" quoted \" here ".to_string()));
}

#[test]
fn lexer_macros() {
    let tokens = lex("#config #map #regex").unwrap();
    assert_eq!(tokens[0].token, Token::Macro(MacroToken::Config));
    assert_eq!(tokens[1].token, Token::Macro(MacroToken::MapMacro));
    assert_eq!(tokens[2].token, Token::Macro(MacroToken::Regex));
    assert!(matches!(
        lex("#nonsense").err().unwrap(),
        LexerError::UnknownMacro { .. }
    ));
}

#[test]
fn lexer_faults() {
    assert!(matches!(
        lex("/* never closed").err().unwrap(),
        LexerError::CommentNotClosed { pos: Pos { line: 1, col: 1 } }
    ));
    assert!(matches!(lex("0x").err().unwrap(), LexerError::HexEmpty { .. }));
    assert!(matches!(lex("0xgg").err().unwrap(), LexerError::HexEmpty { .. }));
    assert!(matches!(lex("0b").err().unwrap(), LexerError::BinaryEmpty { .. }));
    assert!(matches!(lex("0baa").err().unwrap(), LexerError::BinaryEmpty { .. }));
    assert!(matches!(lex("1 .. 2").err().unwrap(), LexerError::RangeMissingEnd { .. }));
    assert!(matches!(lex("''").err().unwrap(), LexerError::CharEmpty { .. }));
    assert!(matches!(lex(r"'\q'").err().unwrap(), LexerError::CharBadEscape { c: 'q', .. }));
    assert!(matches!(lex("'ab'").err().unwrap(), LexerError::CharNotClosed { .. }));
    assert!(matches!(lex("\"open").err().unwrap(), LexerError::StringNotClosed { .. }));
    assert!(matches!(lex(r#""bad \q""#).err().unwrap(), LexerError::StringBadEscape { c: 'q', .. }));
    assert!(matches!(lex("`open").err().unwrap(), LexerError::BackStringNotClosed { .. }));
    assert!(matches!(lex("r\"open").err().unwrap(), LexerError::RawStringNotClosed { .. }));
    assert!(matches!(lex("r##x").err().unwrap(), LexerError::RawStringMissingQuote { .. }));
    assert!(matches!(lex("r#\"a\"##").err().unwrap(), LexerError::RawStringTooManyHashes { .. }));
    assert!(matches!(lex("#9").err().unwrap(), LexerError::UnexpectedChar { c: '#', .. }));
    assert!(matches!(lex("@").err().unwrap(), LexerError::UnexpectedChar { c: '@', .. }));
    assert!(matches!(lex(". ").err().unwrap(), LexerError::UnexpectedChar { c: '.', .. }));
}

#[test]
fn lexer_is_number() {
    assert!(Token::Number("1".to_string()).is_number());
    assert!(Token::NumberHex("f".to_string()).is_number());
    assert!(Token::NumberBinary("1".to_string()).is_number());
    assert!(!Token::Add.is_number());
}

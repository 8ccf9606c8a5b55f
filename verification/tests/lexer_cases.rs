use keymap_formatter::lexer::{Lexer, TokenType};

fn lex(content: &str) -> Vec<TokenType> {
    let mut lexer = Lexer::new(content);
    let mut tokens = vec![];
    loop {
        let token = lexer.next_token();
        if token == TokenType::EOF {
            break;
        }
        tokens.push(token);
    }
    tokens
}

#[test]
fn empty_source_gives_eof_again_and_again() {
    let mut lexer = Lexer::new("");
    assert_eq!(TokenType::EOF, lexer.next_token());
    assert_eq!(TokenType::EOF, lexer.next_token());
}

#[test]
fn white_space_alone_gives_eof() {
    assert_eq!(Vec::<TokenType>::new(), lex(" \t\r\n  \n"));
}

#[test]
fn punctuation_is_one_token_each() {
    assert_eq!(
        vec![
            TokenType::LParen(0),
            TokenType::RParen(1),
            TokenType::LBrace(2),
            TokenType::RBrace(3),
            TokenType::LSqBrace(4),
            TokenType::RSqBrace(5),
            TokenType::Comma(6),
            TokenType::Equals(7),
        ],
        lex("(){}[],=")
    );
}

#[test]
fn reserved_words_and_blanks() {
    assert_eq!(
        vec![
            TokenType::Layout(0),
            TokenType::Const(7),
            TokenType::Progmem(13),
            TokenType::Blank(21),
            TokenType::Blank(23),
            TokenType::Ident(31, "_a".to_string()),
            TokenType::Ident(34, "LAYOUTS".to_string()),
            TokenType::Ident(42, "Const".to_string()),
        ],
        lex("LAYOUT const PROGMEM _ _______ _a LAYOUTS Const")
    );
}

#[test]
fn digits_are_identifier_characters() {
    assert_eq!(
        vec![
            TokenType::Ident(0, "42".to_string()),
            TokenType::Ident(3, "KC_1".to_string()),
            TokenType::Ident(8, "1st".to_string()),
        ],
        lex("42 KC_1 1st")
    );
}

#[test]
fn comment_runs_to_the_end_of_the_line() {
    assert_eq!(
        vec![
            TokenType::Ident(0, "a".to_string()),
            TokenType::Comment(2, 9, "// b [c".to_string()),
            TokenType::Ident(10, "d".to_string()),
        ],
        lex("a // b [c\nd")
    );
}

#[test]
fn comment_at_the_end_of_the_source() {
    assert_eq!(
        vec![TokenType::Comment(1, 8, "// last".to_string())],
        lex(" // last")
    );
}

#[test]
fn comment_keeps_what_is_not_ascii() {
    assert_eq!(
        vec![
            TokenType::Comment(0, 12, "// ╭─╮".to_string()),
            TokenType::Ident(13, "x".to_string()),
        ],
        lex("// ╭─╮\nx")
    );
}

#[test]
fn one_slash_is_an_identifier() {
    assert_eq!(
        vec![
            TokenType::Ident(0, "/".to_string()),
            TokenType::Ident(2, "a".to_string()),
            TokenType::Ident(3, "/".to_string()),
        ],
        lex("/ a/")
    );
}

#[test]
fn unknown_byte_is_an_identifier_of_one_character() {
    assert_eq!(
        vec![
            TokenType::Ident(0, "#".to_string()),
            TokenType::Ident(1, "include".to_string()),
            TokenType::Ident(9, "<".to_string()),
            TokenType::Ident(10, "a".to_string()),
            TokenType::Ident(11, ".".to_string()),
            TokenType::Ident(12, "h".to_string()),
            TokenType::Ident(13, ">".to_string()),
            TokenType::Ident(14, ";".to_string()),
        ],
        lex("#include <a.h>;")
    );
}

#[test]
fn zero_byte_is_an_identifier() {
    assert_eq!(
        vec![
            TokenType::Ident(0, "a".to_string()),
            TokenType::Ident(1, "\0".to_string()),
            TokenType::Ident(2, "b".to_string()),
        ],
        lex("a\0b")
    );
}

#[test]
fn byte_of_a_longer_character_gives_the_replacement_character() {
    assert_eq!(
        vec![
            TokenType::Ident(0, "\u{fffd}".to_string()),
            TokenType::Ident(1, "\u{fffd}".to_string()),
            TokenType::Ident(2, "x".to_string()),
        ],
        lex("éx")
    );
}

#[test]
fn to_string_gives_the_text_of_a_token() {
    assert_eq!("(", TokenType::LParen(3).to_string());
    assert_eq!(")", TokenType::RParen(3).to_string());
    assert_eq!("[", TokenType::LSqBrace(3).to_string());
    assert_eq!("]", TokenType::RSqBrace(3).to_string());
    assert_eq!("{", TokenType::LBrace(3).to_string());
    assert_eq!("}", TokenType::RBrace(3).to_string());
    assert_eq!("=", TokenType::Equals(3).to_string());
    assert_eq!(",", TokenType::Comma(3).to_string());
    assert_eq!("LAYOUT", TokenType::Layout(3).to_string());
    assert_eq!("const", TokenType::Const(3).to_string());
    assert_eq!("PROGMEM", TokenType::Progmem(3).to_string());
    assert_eq!("_______", TokenType::Blank(3).to_string());
    assert_eq!("", TokenType::EOF.to_string());
    assert_eq!("KC_A", TokenType::Ident(3, "KC_A".to_string()).to_string());
    assert_eq!(
        "// x",
        TokenType::Comment(3, 7, "// x".to_string()).to_string()
    );
}

#[test]
fn clone_keeps_a_token() {
    let token = TokenType::Comment(3, 7, "// x".to_string());
    assert_eq!(token, token.clone());
    let token = TokenType::Ident(1, "a".to_string());
    assert_eq!(token, token.clone());
}

#[test]
fn tokens_come_in_the_order_of_their_offsets() {
    let content = "const a PROGMEM b[][c][d] = { // x\n [e] = LAYOUT(f, _, g(h)) }";
    let mut last = None;
    for token in lex(content) {
        let at = match token {
            TokenType::LParen(at)
            | TokenType::RParen(at)
            | TokenType::LSqBrace(at)
            | TokenType::RSqBrace(at)
            | TokenType::Equals(at)
            | TokenType::Comma(at)
            | TokenType::Layout(at)
            | TokenType::Blank(at)
            | TokenType::Ident(at, _)
            | TokenType::Const(at)
            | TokenType::Comment(at, _, _)
            | TokenType::Progmem(at)
            | TokenType::LBrace(at)
            | TokenType::RBrace(at) => at,
            TokenType::EOF => unreachable!(),
        };
        assert!(last < Some(at));
        assert!(at < content.len());
        last = Some(at);
    }
    assert_eq!(Some(content.len() - 1), last);
}

use keymap_formatter::lexer::{Lexer, TokenType};

#[test]
fn test_next_token() {
    let content = r##"// testing
        [_QWERTY] = LAYOUT(
  KC_ESC  , KC_Q , _____ , KC_E 
  ),
  const uint16_t PROGMEM keymaps[][MATRIX_ROWS][MATRIX_COLS] = {"##
        .to_string();

    let mut expected_types: Vec<TokenType> = vec![
        TokenType::Comment(0, 10, "// testing".to_string()),
        TokenType::LSqBrace(19),
        TokenType::Ident(20, "_QWERTY".to_string()),
        TokenType::RSqBrace(27),
        TokenType::Equals(29),
        TokenType::Layout(31),
        TokenType::LParen(37),
        TokenType::Ident(41, "KC_ESC".to_string()),
        TokenType::Comma(49),
        TokenType::Ident(51, "KC_Q".to_string()),
        TokenType::Comma(56),
        TokenType::Blank(58),
        TokenType::Comma(64),
        TokenType::Ident(66, "KC_E".to_string()),
        TokenType::RParen(74),
        TokenType::Comma(75),
        TokenType::Const(79),
        TokenType::Ident(85, "uint16_t".to_string()),
        TokenType::Progmem(94),
        TokenType::Ident(102, "keymaps".to_string()),
        TokenType::LSqBrace(109),
        TokenType::RSqBrace(110),
        TokenType::LSqBrace(111),
        TokenType::Ident(112, "MATRIX_ROWS".to_string()),
        TokenType::RSqBrace(123),
        TokenType::LSqBrace(124),
        TokenType::Ident(125, "MATRIX_COLS".to_string()),
        TokenType::RSqBrace(136),
        TokenType::Equals(138),
        TokenType::LBrace(140),
    ];

    let mut lexer = Lexer::new(&content);

    let mut token = lexer.next_token();
    let mut counter = 1;
    while token != TokenType::EOF {
        let expected = expected_types.remove(0);

        assert_eq!(expected, token, "Failed at token: {}", counter);

        counter += 1;
        token = lexer.next_token();
    }

    assert!(expected_types.is_empty());
}

use keymap_formatter::ast::{KeymapStatement, LayoutStatement, StatementEnum};
use keymap_formatter::lexer::{Lexer, TokenType};
use keymap_formatter::parser::Parser;

#[test]
fn test_parse() {
    let content = r##"[_QWERTY] = LAYOUT(
  KC_ESC  , KC_Q , _____ , KC_E 
  ),"##
        .to_string();

    let lexer = Lexer::new(&content);
    let mut parser = Parser::new(lexer);

    let ast = parser.parse();

    assert_eq!(
        &StatementEnum::KeymapStatement(KeymapStatement::new(
            TokenType::Ident(1, "_QWERTY".to_string()),
            LayoutStatement::new(
                TokenType::Layout(12),
                vec![
                    "KC_ESC".to_string(),
                    "KC_Q".to_string(),
                    "".to_string(),
                    "KC_E".to_string()
                ]
            )
        )),
        ast.statements
            .get(0)
            .expect("Failed to find statement in ast")
    );
}

#[test]
fn test_parse_with_function() {
    let content = r##"[_QWERTY] = LAYOUT(
  KC_ESC  , LCTL(KC_1), _____ , KC_E 
  ),"##
        .to_string();

    let lexer = Lexer::new(&content);
    let mut parser = Parser::new(lexer);

    let ast = parser.parse();

    assert_eq!(
        &StatementEnum::KeymapStatement(KeymapStatement::new(
            TokenType::Ident(1, "_QWERTY".to_string()),
            LayoutStatement::new(
                TokenType::Layout(12),
                vec![
                    "KC_ESC".to_string(),
                    "LCTL(KC_1)".to_string(),
                    "".to_string(),
                    "KC_E".to_string()
                ]
            )
        )),
        ast.statements
            .get(0)
            .expect("Failed to find statement in ast")
    );
}

#[test]
fn test_parse_keymap_init() {
    let content = r##"const uint16_t PROGMEM keymaps[][MATRIX_ROWS][MATRIX_COLS] = {
                [_QWERTY] = LAYOUT(
  KC_ESC  , KC_Q , _____ , KC_E 
  ),
                [_SYM] = LAYOUT(
  KC_ESC  , KC_Q , _____ , KC_E 
  ),
  }"##
    .to_string();

    let lexer = Lexer::new(&content);
    let mut parser = Parser::new(lexer);

    let ast = parser.parse();

    assert_eq!(
        &StatementEnum::Keymaps(
            61,
            210,
            vec![
                KeymapStatement::new(
                    TokenType::Ident(80, "_QWERTY".to_string()),
                    LayoutStatement::new(
                        TokenType::Layout(91),
                        vec![
                            "KC_ESC".to_string(),
                            "KC_Q".to_string(),
                            "".to_string(),
                            "KC_E".to_string()
                        ]
                    )
                ),
                KeymapStatement::new(
                    TokenType::Ident(154, "_SYM".to_string()),
                    LayoutStatement::new(
                        TokenType::Layout(162),
                        vec![
                            "KC_ESC".to_string(),
                            "KC_Q".to_string(),
                            "".to_string(),
                            "KC_E".to_string()
                        ]
                    )
                )
            ]
        ),
        ast.statements
            .get(0)
            .expect("Failed to find statement in ast")
    );
}

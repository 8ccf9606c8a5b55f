use keymap_formatter::ast::{KeymapStatement, LayoutStatement, StatementEnum, AST};
use keymap_formatter::lexer::{Lexer, TokenType};
use keymap_formatter::parser::Parser;

fn parse(content: &str) -> Vec<StatementEnum> {
    let mut parser = Parser::new(Lexer::new(content));
    parser.parse().statements
}

fn keys(statement: &StatementEnum) -> Vec<String> {
    match statement {
        StatementEnum::KeymapStatement(table) => table.layout_statement.keys.clone(),
        StatementEnum::Keymaps(..) => panic!("a key table was expected"),
    }
}

#[test]
fn new_ast_is_empty() {
    assert!(AST::new().statements.is_empty());
}

#[test]
fn nothing_to_parse() {
    assert!(parse("").is_empty());
    assert!(parse("int main() { return 0; }").is_empty());
}

#[test]
fn block_offsets_are_those_of_the_braces() {
    let content =
        "const uint16_t PROGMEM keymaps[][MATRIX_ROWS][MATRIX_COLS] = { [_QWERTY] = LAYOUT(KC_A) }";
    let statements = parse(content);
    assert_eq!(1, statements.len());
    match &statements[0] {
        StatementEnum::Keymaps(start, end, tables) => {
            assert_eq!(content.find('{').unwrap(), *start);
            assert_eq!(content.rfind('}').unwrap(), *end);
            assert_eq!(61, *start);
            assert_eq!(88, *end);
            assert_eq!("{ [_QWERTY] = LAYOUT(KC_A) }", &content[*start..=*end]);
            assert_eq!(
                &vec![KeymapStatement::new(
                    TokenType::Ident(64, "_QWERTY".to_string()),
                    LayoutStatement::new(TokenType::Layout(75), vec!["KC_A".to_string()])
                )],
                tables
            );
        }
        StatementEnum::KeymapStatement(..) => panic!("the keymaps block was expected"),
    }
}

#[test]
fn header_takes_any_identifiers() {
    let statements = parse("const int PROGMEM maps[][ROWS][COLS] = { }");
    assert_eq!(vec![StatementEnum::Keymaps(39, 41, vec![])], statements);
}

#[test]
fn header_with_a_wrong_token_is_no_block() {
    assert!(parse("const thing = other;").is_empty());
    assert!(parse("const uint16_t PROGMEM keymaps[][ROWS] = { }").is_empty());
    assert!(parse("const uint16_t PROGMEM keymaps[][ROWS][COLS] { }").is_empty());
    assert!(parse("const uint16_t PROGMEM keymaps[][ROWS][COLS] = [ ]").is_empty());
}

#[test]
fn block_without_closing_brace_is_no_block() {
    assert!(parse("const uint16_t PROGMEM keymaps[][R][C] = { [A] = LAYOUT(x)").is_empty());
    assert!(parse("const uint16_t PROGMEM keymaps[][R][C] = {").is_empty());
}

#[test]
fn block_skips_what_is_no_table() {
    let statements =
        parse("const t PROGMEM k[][R][C] = { // c\n x , [A] = y [B] = LAYOUT(b), [C] }");
    assert_eq!(
        vec![StatementEnum::Keymaps(
            28,
            69,
            vec![KeymapStatement::new(
                TokenType::Ident(49, "B".to_string()),
                LayoutStatement::new(TokenType::Layout(54), vec!["b".to_string()])
            )]
        )],
        statements
    );
}

#[test]
fn key_list_that_never_closes_is_no_table() {
    assert!(parse("[A] = LAYOUT(a, b").is_empty());
    assert!(parse("[A] = LAYOUT(a, F(b").is_empty());
    assert!(parse("[A] = LAYOUT(").is_empty());
}

#[test]
fn table_with_a_wrong_token_is_no_table() {
    assert!(parse("[A = LAYOUT(a)").is_empty());
    assert!(parse("[] = LAYOUT(a)").is_empty());
    assert!(parse("[A] LAYOUT(a)").is_empty());
    assert!(parse("[A] = LAYOUTS(a)").is_empty());
    assert!(parse("[A] = LAYOUT a)").is_empty());
}

#[test]
fn empty_key_list() {
    let statements = parse("[A] = LAYOUT()");
    assert_eq!(1, statements.len());
    assert!(keys(&statements[0]).is_empty());
}

#[test]
fn keys_are_identifiers_blanks_and_calls() {
    let statements = parse("[A] = LAYOUT(a b, _, ___, LCTL(KC_1), MT(MOD_LALT, KC_ENT), z)");
    assert_eq!(
        vec!["a", "b", "", "", "LCTL(KC_1)", "MT(MOD_LALT,KC_ENT)", "z"],
        keys(&statements[0])
    );
}

#[test]
fn call_takes_every_token_up_to_the_first_closing_parenthesis() {
    let statements = parse("[A] = LAYOUT(F(_ = [x] { } const LAYOUT PROGMEM), b)");
    assert_eq!(
        vec!["F(_______=[x]{}constLAYOUTPROGMEM)", "b"],
        keys(&statements[0])
    );
}

#[test]
fn call_in_a_call_ends_the_key_list() {
    let statements = parse("[A] = LAYOUT(LGUI(LSFT(KC_4)), b)");
    assert_eq!(vec!["LGUI(LSFT(KC_4)"], keys(&statements[0]));
}

#[test]
fn other_tokens_in_a_key_list_give_no_key() {
    let statements = parse("[A] = LAYOUT(a, = [ ] { } const PROGMEM LAYOUT ( // c\n b)");
    assert_eq!(vec!["a", "b"], keys(&statements[0]));
}

#[test]
fn statements_come_in_their_order() {
    let statements = parse(
        "[A] = LAYOUT(a)\nconst t PROGMEM k[][R][C] = { [B] = LAYOUT(b) }\n[C] = LAYOUT(c)",
    );
    assert_eq!(3, statements.len());
    assert_eq!(vec!["a"], keys(&statements[0]));
    assert!(matches!(statements[1], StatementEnum::Keymaps(44, 62, _)));
    assert_eq!(vec!["c"], keys(&statements[2]));
}

#[test]
fn block_reads_a_table_at_every_opening_bracket() {
    let statements = parse("const t PROGMEM k[][R][C] = {[A] = LAYOUT(a)[B] = LAYOUT(b) [ [C] = LAYOUT(c)}");
    match &statements[0] {
        StatementEnum::Keymaps(_, _, tables) => {
            let names: Vec<String> = tables.iter().map(|table| table.token.to_string()).collect();
            assert_eq!(vec!["A", "B", "C"], names);
        }
        StatementEnum::KeymapStatement(..) => panic!("the keymaps block was expected"),
    }
}

#[test]
fn parser_can_be_asked_again() {
    let mut parser = Parser::new(Lexer::new("[A] = LAYOUT(a)"));
    assert_eq!(1, parser.parse().statements.len());
    assert!(parser.parse().statements.is_empty());
}

#[test]
fn parser_starts_where_the_lexer_stands() {
    let mut lexer = Lexer::new("[A] = LAYOUT(a) [B] = LAYOUT(b)");
    for _ in 0..7 {
        lexer.next_token();
    }
    let statements = Parser::new(lexer).parse().statements;
    assert_eq!(1, statements.len());
    assert_eq!(vec!["b"], keys(&statements[0]));
}

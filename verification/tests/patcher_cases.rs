use keymap_formatter::data::{get_keymap, get_layout};
use keymap_formatter::formatter::Mark::{B, K};
use keymap_formatter::formatter::{count_keys, Layout};
use keymap_formatter::patcher::{format_source, get_formatted_file_contents, Formatted};

const HEADER: &str = "const uint16_t PROGMEM keymaps[][MATRIX_ROWS][MATRIX_COLS] = ";

#[test]
fn source_without_a_block_stays() {
    let content = "int main() { return 0; }\n[A] = LAYOUT(a)\n";
    let layout: Layout = vec![vec![K]];
    assert_eq!(Formatted::NoKeymaps, format_source(content, &layout));
    assert_eq!(content, get_formatted_file_contents(content, layout));
    assert_eq!("", get_formatted_file_contents("", vec![vec![K]]));
}

#[test]
fn six_keys_on_seven_cells_leave_the_source_as_it_is() {
    let content = format!("{}{{ [A] = LAYOUT(a, b, c, d, e, f) }}", HEADER);
    let layout: Layout = vec![vec![K, K, K, K, K, K, K]];
    assert_eq!(Formatted::Mismatch(6), format_source(&content, &layout));
    assert_eq!(content, get_formatted_file_contents(&content, layout));
}

#[test]
fn one_table_that_does_not_fit_keeps_all() {
    let content = format!(
        "{}{{ [A] = LAYOUT(a, b) [B] = LAYOUT(a, b, c) [C] = LAYOUT(a) }}",
        HEADER
    );
    let layout: Layout = vec![vec![K, K]];
    assert_eq!(Formatted::Mismatch(3), format_source(&content, &layout));
    assert_eq!(content, get_formatted_file_contents(&content, layout));
}

#[test]
fn one_table_is_rewritten() {
    let content = format!("a {}{{ junk [_L] = LAYOUT(KC_ESC) junk }} z", HEADER);
    let expected = format!(
        "a {}{{\n{}\n[_L] = LAYOUT(\n{}),\n}} z",
        HEADER,
        "//    ╭────────╮        \n//    │ KC_ESC │        \n//    ╰────────╯        ",
        " KC_ESC           \n"
    );
    assert_eq!(
        Formatted::Rewritten(expected.clone()),
        format_source(&content, &vec![vec![K]])
    );
    assert_eq!(expected, get_formatted_file_contents(&content, vec![vec![K]]));
}

#[test]
fn tables_are_parted_by_an_empty_line() {
    let content = format!("{}{{[A] = LAYOUT(a)[B] = LAYOUT(_)}}", HEADER);
    let expected = format!(
        "{}{{\n{}\n[A] = LAYOUT(\n{}),\n\n{}\n[B] = LAYOUT(\n{}),\n}}",
        HEADER,
        "//    ╭───╮   \n//    │ a │   \n//    ╰───╯   ",
        " a      \n",
        "//    ╭──╮  \n//    │  │  \n//    ╰──╯  ",
        " _______     \n"
    );
    assert_eq!(expected, get_formatted_file_contents(&content, vec![vec![K]]));
}

#[test]
fn block_without_tables_is_emptied() {
    let content = format!("{}{{ junk }};", HEADER);
    let expected = format!("{}{{\n\n}};", HEADER);
    assert_eq!(expected, get_formatted_file_contents(&content, vec![vec![K]]));
}

#[test]
fn only_the_first_block_is_rewritten() {
    let content = format!(
        "{}{{ [A] = LAYOUT(a) }}\n{}{{ [B] = LAYOUT(b) }}",
        HEADER, HEADER
    );
    let result = get_formatted_file_contents(&content, vec![vec![K]]);
    assert!(result.ends_with(&format!("\n{}{{ [B] = LAYOUT(b) }}", HEADER)));
    assert!(result.contains("[A] = LAYOUT(\n a      \n),"));
}

#[test]
fn bytes_outside_the_block_stay() {
    let content = format!("// ╭╮ é\n{}{{ [A] = LAYOUT(a) }} // ╰╯ é", HEADER);
    let result = get_formatted_file_contents(&content, vec![vec![K]]);
    let start = content.find('{').unwrap();
    let end = content.rfind('}').unwrap();
    assert_eq!(
        &content.as_bytes()[..=start],
        &result.as_bytes()[..=start]
    );
    assert!(result.as_bytes().ends_with(&content.as_bytes()[end..]));
    assert_eq!(b'\n', result.as_bytes()[start + 1]);
    assert_eq!(
        b'\n',
        result.as_bytes()[result.len() - (content.len() - end) - 1]
    );
}

#[test]
fn compound_key_goes_through_as_one_key() {
    let content = format!("{}{{ [A] = LAYOUT(LCTL(KC_1), b) }}", HEADER);
    let result = get_formatted_file_contents(&content, vec![vec![K, K]]);
    assert!(result.contains("│ LCTL(KC_1) │ b          │"));
    assert!(result.contains("\n LCTL(KC_1) , b                        \n"));
}

#[test]
fn rewriting_twice_is_rewriting_once() {
    let content = format!(
        "x {}{{ [A] = LAYOUT(a, _, LCTL(KC_1),\n // c\n dd) junk [B] = LAYOUT(_, _, _, _) }} y",
        HEADER
    );
    let layout: Layout = vec![vec![K, B, K], vec![B, K, K]];
    let once = get_formatted_file_contents(&content, layout.clone());
    assert_ne!(content, once);
    let twice = get_formatted_file_contents(&once, layout);
    assert_eq!(once, twice);
}

#[test]
fn sample_keymap_on_its_layout() {
    let layout = get_layout();
    assert_eq!(
        vec![
            vec![K, K, K, K, K, K, B, B, B, B, B, K, K, K, K, K, K],
            vec![K, K, K, K, K, K, B, B, B, B, B, K, K, K, K, K, K],
            vec![K, K, K, K, K, K, K, K, B, K, K, K, K, K, K, K, K],
            vec![B, B, B, K, K, K, K, K, B, K, K, K, K, K, B, B, B],
        ],
        layout
    );
    assert_eq!(Some(50), count_keys(&layout));
    let content = get_keymap();
    assert!(content.starts_with("\n/* Copyright 2019"));
    let once = match format_source(&content, &layout) {
        Formatted::Rewritten(text) => text,
        other => panic!("the sample was not rewritten: {:?}", other),
    };
    for name in ["_QWERTY", "_NAV", "_SYM", "_FUNCTION", "_ADJUST"] {
        assert!(once.contains(&format!("\n[{}] = LAYOUT(\n", name)));
    }
    let start = content.find("[][MATRIX_ROWS][MATRIX_COLS] = {").unwrap() + 32;
    assert_eq!(&content[..start], &once[..start]);
    let rest = &content[content.rfind("\n};").unwrap() + 1..];
    assert!(once.ends_with(rest));
    assert_eq!(once, get_formatted_file_contents(&once, get_layout()));
}

#[test]
fn calls_are_read_back_as_they_were_written() {
    let content = format!(
        "{}{{ [_L] = LAYOUT(MT(MOD_LALT, KC_ENT), b, F(_______), G(), LGUI(LSFT(KC_4))) }}",
        HEADER
    );
    let layout: Layout = vec![vec![K, K], vec![K, B, K, K]];
    let once = get_formatted_file_contents(&content, layout.clone());
    assert!(once.contains("\n MT(MOD_LALT,KC_ENT) , b                   ,"));
    assert!(once.contains(" G()                 , LGUI(LSFT(KC_4)     "));
    assert_eq!(once, get_formatted_file_contents(&once, layout));
}

#[test]
fn two_blanks_side_by_side_in_a_call_are_read_back_as_one() {
    let content = format!("{}{{ [_L] = LAYOUT(F(_ _)) }}", HEADER);
    let layout: Layout = vec![vec![K]];
    let once = get_formatted_file_contents(&content, layout.clone());
    assert!(once.contains("\n F(______________) "));
    let twice = get_formatted_file_contents(&once, layout.clone());
    assert!(twice.contains("\n F(_______) "));
    assert_ne!(once, twice);
    assert_eq!(twice, get_formatted_file_contents(&twice, layout));
}

#[test]
fn signs_are_read_back_as_they_were_written() {
    let content = format!("{}{{ [#] = LAYOUT(/, %, S(\"a\"), x) }}", HEADER);
    let layout: Layout = vec![vec![K, K], vec![K, K]];
    let once = get_formatted_file_contents(&content, layout.clone());
    assert!(once.contains("\n[#] = LAYOUT(\n /      , %      ,"));
    assert!(once.contains("\n S(\"a\") , x      "));
    assert_eq!(once, get_formatted_file_contents(&once, layout));
}

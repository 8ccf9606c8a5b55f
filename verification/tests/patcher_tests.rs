use keymap_formatter::formatter::Mark::{B, K};
use keymap_formatter::formatter::{Layout, Mark};
use keymap_formatter::patcher::get_formatted_file_contents;

#[test]
fn test_formatting_full_code() {
    let content = r##"const thing = other;
// top comments
const uint16_t PROGMEM keymaps[][MATRIX_ROWS][MATRIX_COLS] = {
//    ╭─────────┬─────────┬─────────┬─────────┬─────────┬─────────╮                                                 ╭─────────┬─────────┬─────────┬─────────┬─────────┬─────────╮         
//    │ KC_ESC  │ KC_Q    │ KC_W    │ KC_E    │ KC_R    │ KC_T    │                                                 │ KC_Y    │ KC_U    │ KC_I    │ KC_O    │ KC_P    │ KC_BSPC │         
//    ├─────────┼─────────┼─────────┼─────────┼─────────┼─────────┤                                                 ├─────────┼─────────┼─────────┼─────────┼─────────┼─────────┤         
//    │ SFT_TAB │ KC_A    │ KC_S    │ KC_D    │ KC_F    │ KC_G    │                                                 │ KC_H    │ KC_J    │ KC_K    │ KC_L    │ KC_SCLN │ SFT_QOT │         
//    ├─────────┼─────────┼─────────┼─────────┼─────────┼─────────┼─────────┬─────────╮         ╭─────────┬─────────┼─────────┼─────────┼─────────┼─────────┼─────────┼─────────┤         
//    │ KC_LCTL │ KC_Z    │ KC_X    │ KC_C    │ KC_V    │ KC_B    │ KC_CPYP │ ADJUST  │         │ FKEYS   │         │ KC_N    │ KC_M    │ KC_COMM │ KC_DOT  │ KC_SLSH │ KC_RCTL │         
//    ╰─────────┴─────────┴─────────┼─────────┼─────────┼─────────┼─────────┼─────────┤         ├─────────┼─────────┼─────────┼─────────┼─────────┼─────────┴─────────┴─────────╯         
//                                  │ KC_LALT │ NAV     │ KC_LGUI │ KC_ENT  │ SYM     │         │ SYM     │ KC_SPC  │ NAV     │         │         │                                       
//                                  ╰─────────┴─────────┴─────────┴─────────┴─────────╯         ╰─────────┴─────────┴─────────┴─────────┴─────────╯                                       
[_QWERTY] = LAYOUT(
 KC_ESC  , KC_Q    , KC_W    , KC_E    , KC_R    , KC_T    ,                                                   KC_Y    , KC_U    , KC_I    , KC_O    , KC_P    , KC_BSPC ,          
 SFT_TAB , KC_A    , KC_S    , KC_D    , KC_F    , KC_G    ,                                                   KC_H    , KC_J    , KC_K    , KC_L    , KC_SCLN , SFT_QOT ,          
 KC_LCTL , KC_Z    , KC_X    , KC_C    , KC_V    , KC_B    , KC_CPYP , ADJUST  ,           FKEYS   , _______ , KC_N    , KC_M    , KC_COMM , KC_DOT  , KC_SLSH , KC_RCTL ,          
                               KC_LALT , NAV     , KC_LGUI , KC_ENT  , SYM     ,           SYM     , KC_SPC  , NAV     , _______ , _______                                          
),

//    ╭─────────┬─────────┬─────────┬─────────┬─────────┬─────────╮                                                 ╭─────────┬─────────┬─────────┬─────────┬─────────┬─────────╮         
//    ├─────────┼─────────┼─────────┼─────────┼─────────┼─────────┤                                                 ├─────────┼─────────┼─────────┼─────────┼─────────┼─────────┤         
//    │         │ KC_LGUI │ KC_LALT │ KC_LCTL │ KC_LSFT │         │                                                 │ KC_LEFT │ KC_DOWN │ KC_UP   │ KC_RGHT │         │         │         
//    ├─────────┼─────────┼─────────┼─────────┼─────────┼─────────┼─────────┬─────────╮         ╭─────────┬─────────┼─────────┼─────────┼─────────┼─────────┼─────────┼─────────┤         
//    │         │         │         │         │         │         │         │ KC_SCRL │         │         │         │         │         │         │         │         │         │         
//    ╰─────────┴─────────┴─────────┼─────────┼─────────┼─────────┼─────────┼─────────┤         ├─────────┼─────────┼─────────┼─────────┼─────────┼─────────┴─────────┴─────────╯         
//                                  │         │         │         │         │         │         │         │         │         │         │         │                                       
//                                  ╰─────────┴─────────┴─────────┴─────────┴─────────╯         ╰─────────┴─────────┴─────────┴─────────┴─────────╯                                       
[_NAV] = LAYOUT(
 _______ , _______ , _______ , _______ , _______ , _______ ,                                                   _______ , _______ , _______ , _______ , _______ , KC_DEL  ,          
 _______ , KC_LGUI , KC_LALT , KC_LCTL , KC_LSFT , _______ ,                                                   KC_LEFT , KC_DOWN , KC_UP   , KC_RGHT , _______ , _______ ,          
 _______ , _______ , _______ , _______ , _______ , _______ , _______ , KC_SCRL ,           _______ , _______ , _______ , _______ , _______ , _______ , _______ , _______ ,          
                               _______ , _______ , _______ , _______ , _______ ,           _______ , _______ , _______ , _______ , _______                                          
),


}

// something
const thing = other;
"##;
    let layout: Layout = vec![
        vec![K, K, K, K, K, K, B, B, B, B, B, K, K, K, K, K, K],
        vec![K, K, K, K, K, K, B, B, B, B, B, K, K, K, K, K, K],
        vec![K, K, K, K, K, K, K, K, B, K, K, K, K, K, K, K, K],
        vec![B, B, B, K, K, K, K, K, B, K, K, K, K, K, B, B, B],
    ];
    let result = get_formatted_file_contents(content, layout);

    let expected = r##"const thing = other;
// top comments
const uint16_t PROGMEM keymaps[][MATRIX_ROWS][MATRIX_COLS] = {
//    ╭─────────┬─────────┬─────────┬─────────┬─────────┬─────────╮                                                 ╭─────────┬─────────┬─────────┬─────────┬─────────┬─────────╮         
//    │ KC_ESC  │ KC_Q    │ KC_W    │ KC_E    │ KC_R    │ KC_T    │                                                 │ KC_Y    │ KC_U    │ KC_I    │ KC_O    │ KC_P    │ KC_BSPC │         
//    ├─────────┼─────────┼─────────┼─────────┼─────────┼─────────┤                                                 ├─────────┼─────────┼─────────┼─────────┼─────────┼─────────┤         
//    │ SFT_TAB │ KC_A    │ KC_S    │ KC_D    │ KC_F    │ KC_G    │                                                 │ KC_H    │ KC_J    │ KC_K    │ KC_L    │ KC_SCLN │ SFT_QOT │         
//    ├─────────┼─────────┼─────────┼─────────┼─────────┼─────────┼─────────┬─────────╮         ╭─────────┬─────────┼─────────┼─────────┼─────────┼─────────┼─────────┼─────────┤         
//    │ KC_LCTL │ KC_Z    │ KC_X    │ KC_C    │ KC_V    │ KC_B    │ KC_CPYP │ ADJUST  │         │ FKEYS   │         │ KC_N    │ KC_M    │ KC_COMM │ KC_DOT  │ KC_SLSH │ KC_RCTL │         
//    ╰─────────┴─────────┴─────────┼─────────┼─────────┼─────────┼─────────┼─────────┤         ├─────────┼─────────┼─────────┼─────────┼─────────┼─────────┴─────────┴─────────╯         
//                                  │ KC_LALT │ NAV     │ KC_LGUI │ KC_ENT  │ SYM     │         │ SYM     │ KC_SPC  │ NAV     │         │         │                                       
//                                  ╰─────────┴─────────┴─────────┴─────────┴─────────╯         ╰─────────┴─────────┴─────────┴─────────┴─────────╯                                       
[_QWERTY] = LAYOUT(
 KC_ESC  , KC_Q    , KC_W    , KC_E    , KC_R    , KC_T    ,                                                   KC_Y    , KC_U    , KC_I    , KC_O    , KC_P    , KC_BSPC ,          
 SFT_TAB , KC_A    , KC_S    , KC_D    , KC_F    , KC_G    ,                                                   KC_H    , KC_J    , KC_K    , KC_L    , KC_SCLN , SFT_QOT ,          
 KC_LCTL , KC_Z    , KC_X    , KC_C    , KC_V    , KC_B    , KC_CPYP , ADJUST  ,           FKEYS   , _______ , KC_N    , KC_M    , KC_COMM , KC_DOT  , KC_SLSH , KC_RCTL ,          
                               KC_LALT , NAV     , KC_LGUI , KC_ENT  , SYM     ,           SYM     , KC_SPC  , NAV     , _______ , _______                                          
),

//    ╭─────────┬─────────┬─────────┬─────────┬─────────┬─────────╮                                                 ╭─────────┬─────────┬─────────┬─────────┬─────────┬─────────╮         
//    │         │         │         │         │         │         │                                                 │         │         │         │         │         │ KC_DEL  │         
//    ├─────────┼─────────┼─────────┼─────────┼─────────┼─────────┤                                                 ├─────────┼─────────┼─────────┼─────────┼─────────┼─────────┤         
//    │         │ KC_LGUI │ KC_LALT │ KC_LCTL │ KC_LSFT │         │                                                 │ KC_LEFT │ KC_DOWN │ KC_UP   │ KC_RGHT │         │         │         
//    ├─────────┼─────────┼─────────┼─────────┼─────────┼─────────┼─────────┬─────────╮         ╭─────────┬─────────┼─────────┼─────────┼─────────┼─────────┼─────────┼─────────┤         
//    │         │         │         │         │         │         │         │ KC_SCRL │         │         │         │         │         │         │         │         │         │         
//    ╰─────────┴─────────┴─────────┼─────────┼─────────┼─────────┼─────────┼─────────┤         ├─────────┼─────────┼─────────┼─────────┼─────────┼─────────┴─────────┴─────────╯         
//                                  │         │         │         │         │         │         │         │         │         │         │         │                                       
//                                  ╰─────────┴─────────┴─────────┴─────────┴─────────╯         ╰─────────┴─────────┴─────────┴─────────┴─────────╯                                       
[_NAV] = LAYOUT(
 _______ , _______ , _______ , _______ , _______ , _______ ,                                                   _______ , _______ , _______ , _______ , _______ , KC_DEL  ,          
 _______ , KC_LGUI , KC_LALT , KC_LCTL , KC_LSFT , _______ ,                                                   KC_LEFT , KC_DOWN , KC_UP   , KC_RGHT , _______ , _______ ,          
 _______ , _______ , _______ , _______ , _______ , _______ , _______ , KC_SCRL ,           _______ , _______ , _______ , _______ , _______ , _______ , _______ , _______ ,          
                               _______ , _______ , _______ , _______ , _______ ,           _______ , _______ , _______ , _______ , _______                                          
),
}

// something
const thing = other;"##;

    println!("{}", result);
    for (i, (ex, res)) in expected.chars().zip(result.chars()).enumerate() {
        assert_eq!(ex, res, "Char index: {}", i);
    }
}

#[test]
fn test_layout_with_too_little_keys() {
    let content = r##"const thing = other;
// top comments
const uint16_t PROGMEM keymaps[][MATRIX_ROWS][MATRIX_COLS] = {
//  Comments
[_QWERTY] = LAYOUT(
 KC_ESC  , KC_Q    , KC_W    , KC_E    , KC_R    , KC_T
),
}
// something
const thing = other;
"##;
    let layout: Layout = vec![vec![Mark::K, Mark::K, Mark::K]];
    let result = get_formatted_file_contents(content, layout);

    assert_eq!(content, result)
}

#[test]
fn test_layout_with_too_many_keys() {
    let content = r##"const thing = other;
// top comments
const uint16_t PROGMEM keymaps[][MATRIX_ROWS][MATRIX_COLS] = {
//  Comments
[_QWERTY] = LAYOUT(
 KC_ESC  , KC_Q    , KC_W    , KC_E    , KC_R    , KC_T
),
}
// something
const thing = other;
"##;
    let layout: Layout = vec![vec![K, K, K, K, K, K, K]];
    let result = get_formatted_file_contents(content, layout);

    assert_eq!(content, result)
}

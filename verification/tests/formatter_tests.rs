use keymap_formatter::ast::{KeymapStatement, LayoutStatement};
use keymap_formatter::formatter::Mark::{B, K};
use keymap_formatter::formatter::{get_keymap_format, get_keymap_string, Mark};
use keymap_formatter::lexer::TokenType;

#[test]
fn test_key_display() {
    let keymap = KeymapStatement {
        token: TokenType::Ident(4932, "_QWERTY".to_string()),
        layout_statement: LayoutStatement {
            token: TokenType::Layout(4943),
            keys: vec!["KC_ESC".to_string()],
        },
    };

    let layout: Vec<Vec<Mark>> = vec![vec![Mark::K]];

    let (display, keymap) = get_keymap_format(&keymap, layout);

    let display = get_keymap_string(display);
    let expected_display =
        "//    ╭────────╮        \n//    │ KC_ESC │        \n//    ╰────────╯";

    for (i, (ex, res)) in expected_display.chars().zip(display.chars()).enumerate() {
        assert_eq!(ex, res, "Char index: {}", i);
    }

    let keymap = get_keymap_string(keymap);
    let expected_keymap = " KC_ESC";
    for (i, (ex, res)) in keymap.chars().zip(expected_keymap.chars()).enumerate() {
        assert_eq!(ex, res, "Char index: {}", i);
    }
}

#[test]
fn test_format() {
    let keymap = KeymapStatement {
        token: TokenType::Ident(4932, "_QWERTY".to_string()),
        layout_statement: LayoutStatement {
            token: TokenType::Layout(4943),
            keys: vec![
                "KC_ESC".to_string(),
                "KC_Q".to_string(),
                "KC_W".to_string(),
                "KC_E".to_string(),
                "KC_R".to_string(),
                "KC_T".to_string(),
                "KC_Y".to_string(),
                "KC_U".to_string(),
                "KC_I".to_string(),
                "KC_O".to_string(),
                "KC_P".to_string(),
                "KC_BSPC".to_string(),
                "SFT_TAB".to_string(),
                "KC_A".to_string(),
                "KC_S".to_string(),
                "KC_D".to_string(),
                "KC_F".to_string(),
                "KC_G".to_string(),
                "KC_H".to_string(),
                "KC_J".to_string(),
                "KC_K".to_string(),
                "KC_L".to_string(),
                "KC_SCLN".to_string(),
                "KC_QUOTE".to_string(),
                "KC_LCTL".to_string(),
                "KC_Z".to_string(),
                "KC_X".to_string(),
                "KC_C".to_string(),
                "KC_V".to_string(),
                "KC_B".to_string(),
                "KC_CPYP".to_string(),
                "ADJUST".to_string(),
                "FKEYS".to_string(),
                "".to_string(),
                "KC_N".to_string(),
                "KC_M".to_string(),
                "KC_COMM".to_string(),
                "KC_DOT".to_string(),
                "KC_SLSH".to_string(),
                "KC_RSFT".to_string(),
                "KC_LALT".to_string(),
                "NAV".to_string(),
                "SYM".to_string(),
                "KC_ENT".to_string(),
                "KC_LGUI".to_string(),
                "KC_RGUI".to_string(),
                "KC_SPC".to_string(),
                "NAV".to_string(),
                "".to_string(),
                "".to_string(),
            ],
        },
    };

    let layout: Vec<Vec<Mark>> = vec![
        vec![K, K, K, K, K, K, B, B, B, B, B, K, K, K, K, K, K],
        vec![K, K, K, K, K, K, B, B, B, B, B, K, K, K, K, K, K],
        vec![K, K, K, K, K, K, K, K, B, K, K, K, K, K, K, K, K],
        vec![B, B, B, K, K, K, K, K, B, K, K, K, K, K, B, B, B],
    ];

    let (display, keymap) = get_keymap_format(&keymap, layout);

    let display = get_keymap_string(display);
    let expected = "//    ╭──────────┬──────────┬──────────┬──────────┬──────────┬──────────╮                                                      ╭──────────┬──────────┬──────────┬──────────┬──────────┬──────────╮          \n//    │ KC_ESC   │ KC_Q     │ KC_W     │ KC_E     │ KC_R     │ KC_T     │                                                      │ KC_Y     │ KC_U     │ KC_I     │ KC_O     │ KC_P     │ KC_BSPC  │          \n//    ├──────────┼──────────┼──────────┼──────────┼──────────┼──────────┤                                                      ├──────────┼──────────┼──────────┼──────────┼──────────┼──────────┤          \n//    │ SFT_TAB  │ KC_A     │ KC_S     │ KC_D     │ KC_F     │ KC_G     │                                                      │ KC_H     │ KC_J     │ KC_K     │ KC_L     │ KC_SCLN  │ KC_QUOTE │          \n//    ├──────────┼──────────┼──────────┼──────────┼──────────┼──────────┼──────────┬──────────╮          ╭──────────┬──────────┼──────────┼──────────┼──────────┼──────────┼──────────┼──────────┤          \n//    │ KC_LCTL  │ KC_Z     │ KC_X     │ KC_C     │ KC_V     │ KC_B     │ KC_CPYP  │ ADJUST   │          │ FKEYS    │          │ KC_N     │ KC_M     │ KC_COMM  │ KC_DOT   │ KC_SLSH  │ KC_RSFT  │          \n//    ╰──────────┴──────────┴──────────┼──────────┼──────────┼──────────┼──────────┼──────────┤          ├──────────┼──────────┼──────────┼──────────┼──────────┼──────────┴──────────┴──────────╯          \n//                                     │ KC_LALT  │ NAV      │ SYM      │ KC_ENT   │ KC_LGUI  │          │ KC_RGUI  │ KC_SPC   │ NAV      │          │          │                                           \n//                                     ╰──────────┴──────────┴──────────┴──────────┴──────────╯          ╰──────────┴──────────┴──────────┴──────────┴──────────╯";
    for (ex, res) in expected.chars().zip(display.chars()) {
        assert_eq!(ex, res);
    }

    let keymap = get_keymap_string(keymap);
    let expected = " KC_ESC   , KC_Q     , KC_W     , KC_E     , KC_R     , KC_T     ,                                                        KC_Y     , KC_U     , KC_I     , KC_O     , KC_P     , KC_BSPC  ,           \n SFT_TAB  , KC_A     , KC_S     , KC_D     , KC_F     , KC_G     ,                                                        KC_H     , KC_J     , KC_K     , KC_L     , KC_SCLN  , KC_QUOTE ,           \n KC_LCTL  , KC_Z     , KC_X     , KC_C     , KC_V     , KC_B     , KC_CPYP  , ADJUST   ,            FKEYS    , _______  , KC_N     , KC_M     , KC_COMM  , KC_DOT   , KC_SLSH  , KC_RSFT  ,           \n                                  KC_LALT  , NAV      , SYM      , KC_ENT   , KC_LGUI  ,            KC_RGUI  , KC_SPC   , NAV      , _______  , _______";

    for (ex, res) in expected.chars().zip(keymap.chars()) {
        assert_eq!(ex, res);
    }
}

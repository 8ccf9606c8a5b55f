use keymap_formatter::ast::{KeymapStatement, LayoutStatement};
use keymap_formatter::formatter::Mark::{B, K};
use keymap_formatter::formatter::{
    corner_element, count_keys, fits, get_keymap_format, get_keymap_string, render, Element,
    Layout, Mark,
};
use keymap_formatter::lexer::TokenType;

fn table(keys: &[&str]) -> KeymapStatement {
    KeymapStatement::new(
        TokenType::Ident(1, "_L".to_string()),
        LayoutStatement::new(
            TokenType::Layout(6),
            keys.iter().map(|key| key.to_string()).collect(),
        ),
    )
}

fn rendered(keys: &[&str], layout: Layout) -> (String, String) {
    let (display, list) = get_keymap_format(&table(keys), layout);
    (get_keymap_string(display), get_keymap_string(list))
}

#[test]
fn element_texts() {
    assert_eq!("╭", Element::TopLeft.to_string());
    assert_eq!("╮", Element::TopRight.to_string());
    assert_eq!("╯", Element::BottomRight.to_string());
    assert_eq!("╰", Element::BottomLeft.to_string());
    assert_eq!("─", Element::Horizontal.to_string());
    assert_eq!("│", Element::Vertical.to_string());
    assert_eq!("┬", Element::TopT.to_string());
    assert_eq!("┴", Element::BottomT.to_string());
    assert_eq!("├", Element::LeftT.to_string());
    assert_eq!("┤", Element::RightT.to_string());
    assert_eq!("┼", Element::Plus.to_string());
    assert_eq!("\n", Element::Newline.to_string());
    assert_eq!("//    ", Element::LineStart.to_string());
    assert_eq!(" ", Element::Space.to_string());
    assert_eq!("KC_A", Element::Key("KC_A".to_string()).to_string());
}

#[test]
fn element_clone_keeps_the_element() {
    assert_eq!(Element::Plus, Element::Plus.clone());
    assert_eq!(
        Element::Key("KC_A".to_string()),
        Element::Key("KC_A".to_string()).clone()
    );
}

#[test]
fn text_of_no_elements_is_empty() {
    assert_eq!("", get_keymap_string(vec![]));
}

#[test]
fn text_of_elements_is_their_texts_in_order() {
    assert_eq!(
        "//    │ a,\n",
        get_keymap_string(vec![
            Element::LineStart,
            Element::Vertical,
            Element::Space,
            Element::Key("a".to_string()),
            Element::Key(",".to_string()),
            Element::Newline,
        ])
    );
}

#[test]
fn corner_of_every_neighbourhood() {
    let f = false;
    let t = true;
    assert_eq!(Element::Space, corner_element(f, f, f, f));
    assert_eq!(Element::TopLeft, corner_element(f, f, f, t));
    assert_eq!(Element::TopRight, corner_element(f, f, t, f));
    assert_eq!(Element::TopT, corner_element(f, f, t, t));
    assert_eq!(Element::BottomLeft, corner_element(f, t, f, f));
    assert_eq!(Element::LeftT, corner_element(f, t, f, t));
    assert_eq!(Element::Plus, corner_element(f, t, t, f));
    assert_eq!(Element::Plus, corner_element(f, t, t, t));
    assert_eq!(Element::BottomRight, corner_element(t, f, f, f));
    assert_eq!(Element::Plus, corner_element(t, f, f, t));
    assert_eq!(Element::RightT, corner_element(t, f, t, f));
    assert_eq!(Element::Plus, corner_element(t, f, t, t));
    assert_eq!(Element::BottomT, corner_element(t, t, f, f));
    assert_eq!(Element::Plus, corner_element(t, t, f, t));
    assert_eq!(Element::Plus, corner_element(t, t, t, f));
    assert_eq!(Element::Plus, corner_element(t, t, t, t));
}

#[test]
fn minimal_box() {
    let (display, list) = rendered(&["KC_ESC"], vec![vec![K]]);
    assert_eq!(
        "//    ╭────────╮        \n//    │ KC_ESC │        \n//    ╰────────╯        ",
        display
    );
    assert_eq!(" KC_ESC           \n", list);
}

#[test]
fn minimal_box_as_elements() {
    let (display, list) = get_keymap_format(&table(&["KC_ESC"]), vec![vec![K]]);
    let mut expected = vec![Element::LineStart, Element::TopLeft];
    expected.extend(vec![Element::Horizontal; 8]);
    expected.push(Element::TopRight);
    expected.extend(vec![Element::Space; 8]);
    expected.push(Element::Newline);
    expected.extend(vec![
        Element::LineStart,
        Element::Vertical,
        Element::Space,
        Element::Key("KC_ESC".to_string()),
        Element::Space,
        Element::Vertical,
    ]);
    expected.extend(vec![Element::Space; 8]);
    expected.push(Element::Newline);
    expected.extend(vec![Element::LineStart, Element::BottomLeft]);
    expected.extend(vec![Element::Horizontal; 8]);
    expected.push(Element::BottomRight);
    expected.extend(vec![Element::Space; 8]);
    assert_eq!(expected, display);

    let mut expected = vec![
        Element::Space,
        Element::Key("KC_ESC".to_string()),
        Element::Space,
        Element::Space,
    ];
    expected.extend(vec![Element::Space; 9]);
    expected.push(Element::Newline);
    assert_eq!(expected, list);
}

#[test]
fn render_is_get_keymap_format() {
    let layout = vec![vec![K, B, K], vec![B, K]];
    let keymap = table(&["a", "", "ccc"]);
    assert_eq!(
        get_keymap_format(&keymap, layout.clone()),
        render(&keymap, &layout)
    );
}

#[test]
fn width_is_that_of_the_longest_key_in_bytes() {
    let (display, list) = rendered(&["a", "abcd"], vec![vec![K, K]]);
    assert_eq!(
        "//    ╭──────┬──────╮      \n//    │ a    │ abcd │      \n//    ╰──────┴──────╯      ",
        display
    );
    assert_eq!(" a    , abcd         \n", list);
}

#[test]
fn blank_key_is_empty_in_the_diagram_and_underscores_in_the_list() {
    let (display, list) = rendered(&["", "KC_ENTER"], vec![vec![K, K]]);
    assert_eq!(
        "//    ╭──────────┬──────────╮          \n//    │          │ KC_ENTER │          \n//    ╰──────────┴──────────╯          ",
        display
    );
    assert_eq!(" _______  , KC_ENTER             \n", list);
}

#[test]
fn blank_key_longer_than_the_width_is_not_padded() {
    let (display, list) = rendered(&["", "a"], vec![vec![K, K]]);
    assert_eq!(
        "//    ╭───┬───╮   \n//    │   │ a │   \n//    ╰───┴───╯   ",
        display
    );
    assert_eq!(" _______ , a      \n", list);
}

#[test]
fn gaps_and_ragged_rows() {
    let layout = vec![vec![K, B, K], vec![B, K], vec![K, K, K, K]];
    let (display, list) = rendered(&["a", "b", "c", "d", "e", "f", "g"], layout);
    let expected = [
        "//    ╭───╮   ╭───╮   ",
        "//    │ a │   │ b │   ",
        "//    ╰───┼───┼───╯   ",
        "//        │ c │   ",
        "//    ╭───┼───┼───",
        "//    │ d │ e │ f │ g │   ",
        "//    ╰───┴───┴───┴───╯   ",
    ]
    .join("\n");
    assert_eq!(expected, display);
    assert_eq!(
        " a ,     b ,    \n     c ,    \n d , e , f , g      \n",
        list
    );
}

#[test]
fn grid_without_rows() {
    let (display, list) = rendered(&[], vec![]);
    assert_eq!("//       \n//       ", display);
    assert_eq!("", list);
}

#[test]
fn grid_without_keys() {
    let (display, list) = rendered(&[], vec![vec![B, B], vec![]]);
    assert_eq!(
        "//             \n//             \n//             \n//       \n//       ",
        display
    );
    assert_eq!("         \n   \n", list);
}

#[test]
fn key_list_gives_the_keys_back_in_row_major_order() {
    let layout = vec![vec![B, K, K], vec![K, B, B, K], vec![], vec![K]];
    let keys = ["one", "", "LCTL(KC_1)", "four", "x"];
    let (_, list) = get_keymap_format(&table(&keys), layout);
    let entries: Vec<String> = list
        .into_iter()
        .filter_map(|element| match element {
            Element::Key(text) => Some(text),
            _ => None,
        })
        .collect();
    assert_eq!(
        vec!["one", ",", "_______", ",", "LCTL(KC_1)", ",", "four", ",", "x"],
        entries
    );
    let (_, text) = rendered(&keys, vec![vec![B, K, K], vec![K, B, B, K], vec![], vec![K]]);
    let split: Vec<&str> = text.split(',').map(|entry| entry.trim()).collect();
    assert_eq!(vec!["one", "_______", "LCTL(KC_1)", "four", "x"], split);
}

#[test]
fn fits_compares_keys_and_cells() {
    let layout: Layout = vec![vec![K, B], vec![], vec![K, K]];
    assert!(fits(&table(&["a", "b", "c"]), &layout));
    assert!(!fits(&table(&["a", "b"]), &layout));
    assert!(!fits(&table(&["a", "b", "c", "d"]), &layout));
    assert!(fits(&table(&[]), &vec![]));
    assert!(fits(&table(&[]), &vec![vec![B]]));
    assert!(!fits(&table(&[]), &vec![vec![K]]));
}

#[test]
fn count_keys_counts_the_cells_with_a_key() {
    assert_eq!(Some(0), count_keys(&vec![]));
    assert_eq!(Some(0), count_keys(&vec![vec![], vec![Mark::B]]));
    assert_eq!(Some(3), count_keys(&vec![vec![K, B], vec![], vec![K, K]]));
}

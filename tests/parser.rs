use qmk_lsp::custom::parse_custom_keycodes;
use qmk_lsp::layers::{count_keys_in_macro, parse_layers};

#[test]
fn custom_test_parse_custom_keycodes() {
    let content = "
        enum custom_keycodes {
            MY_KEY1,
            MY_KEY2 = SAFE_RANGE,
            // Comment
            MY_KEY3
        };
        ";
    let kcs = parse_custom_keycodes(content);
    assert_eq!(kcs.len(), 3);
    assert_eq!(kcs[0].name, "MY_KEY1");
    assert_eq!(kcs[1].name, "MY_KEY2");
    assert_eq!(kcs[2].name, "MY_KEY3");
}

#[test]
fn parser_test_parse_custom_keycodes() {
    let content = "
    enum custom_keycodes {
        MY_KEY1,
        MY_KEY2 = SAFE_RANGE,
        // Comment
        MY_KEY3
    };
    ";
    let kcs = parse_custom_keycodes(content);
    assert_eq!(kcs.len(), 3);
    assert_eq!(kcs[0].name, "MY_KEY1");
    assert_eq!(kcs[1].name, "MY_KEY2");
    assert_eq!(kcs[2].name, "MY_KEY3");
}

#[test]
fn test_parse_layers_simple() {
    let content = "
            [0] = LAYOUT_60_ansi(
                KC_ESC, KC_1, KC_2, KC_3
            ),
        ";
    let layers = parse_layers(content);
    assert_eq!(layers.len(), 1);
    assert_eq!(layers[0].name, "0");
    assert_eq!(layers[0].macro_name, "LAYOUT_60_ansi");
    assert_eq!(layers[0].key_count, 4);
}

#[test]
fn test_parse_layers_nested_macros() {
    let content = "
            [1] = LAYOUT(
                KC_A, LT(1, KC_B), LCTL(KC_C)
            ),
        ";
    let layers = parse_layers(content);
    assert_eq!(layers[0].key_count, 3);
}

#[test]
fn test_parse_layers_complex_nested() {
    let content = "
            [2] = LAYOUT(
                KC_A, 
                MO(1), 
                TD(
                    ACTION_TAP_DANCE_DOUBLE(KC_X, KC_Y)
                ), 
                KC_B
            )
         ";
    let layers = parse_layers(content);
    assert_eq!(layers[0].key_count, 4);
}

#[test]
fn test_parse_layers_empty() {
    let content = "[3] = LAYOUT()";
    let layers = parse_layers(content);
    assert_eq!(layers[0].key_count, 0);
}

#[test]
fn test_parse_layers() {
    let content = "
    [BASE] = LAYOUT(
        KC_A, KC_B
    ),
    [LOWER] = LAYOUT(
        KC_1, KC_2
    )
    ";
    let layers = parse_layers(content);
    assert_eq!(layers.len(), 2);
    assert_eq!(layers[0].name, "BASE");
    assert_eq!(layers[1].name, "LOWER");
}

#[test]
fn layer_span_covers_whole_definition() {
    let content = "x [L1] = LAYOUT(KC_A, KC_B) y";
    let layers = parse_layers(content);
    assert_eq!(layers.len(), 1);
    assert_eq!(layers[0].span.start, 2);
    assert_eq!(layers[0].span.end, 27);
    assert_eq!(&content[layers[0].span.clone()], "[L1] = LAYOUT(KC_A, KC_B)");
}

#[test]
fn nested_arguments_count_once() {
    assert_eq!(count_keys_in_macro("KC_A, LT(1, KC_B), LCTL(KC_C))"), (3, 30));
    assert_eq!(count_keys_in_macro("{KC_A, KC_B}, [1, 2], (x))"), (3, 26));
}

#[test]
fn whitespace_only_arguments_count_zero() {
    assert_eq!(count_keys_in_macro(")"), (0, 1));
    assert_eq!(count_keys_in_macro(" \n\t )"), (0, 5));
}

#[test]
fn trailing_comma_adds_no_key() {
    assert_eq!(count_keys_in_macro("KC_A, KC_B, KC_C, )"), (3, 19));
    assert_eq!(count_keys_in_macro("KC_A,\n)"), (1, 7));
}

#[test]
fn empty_arguments_between_commas_are_skipped() {
    assert_eq!(count_keys_in_macro("KC_A, , KC_B)"), (2, 13));
}

#[test]
fn unterminated_list_consumes_all() {
    assert_eq!(count_keys_in_macro("KC_A, KC_B"), (1, 10));
    let layers = parse_layers("[0] = LAYOUT(KC_A, LT(1");
    assert_eq!(layers.len(), 1);
    assert_eq!(layers[0].key_count, 1);
    assert_eq!(layers[0].span.end, 23);
}

#[test]
fn header_needs_identifiers_and_paren() {
    assert_eq!(parse_layers("[] = LAYOUT(KC_A)").len(), 0);
    assert_eq!(parse_layers("[0] LAYOUT(KC_A)").len(), 0);
    assert_eq!(parse_layers("[0] = LAYOUT KC_A").len(), 0);
    let layers = parse_layers("[0]\n=\tLAYOUT  (KC_A)");
    assert_eq!(layers.len(), 1);
    assert_eq!(layers[0].key_count, 1);
}

#[test]
fn custom_block_needs_semicolon() {
    assert_eq!(parse_custom_keycodes("enum custom_keycodes { A, B }").len(), 0);
    assert_eq!(parse_custom_keycodes("enum custom_keycodes {}; ").len(), 0);
}

#[test]
fn only_first_custom_block_counts() {
    let kcs = parse_custom_keycodes(
        "enum custom_keycodes { A, B, }; enum custom_keycodes { C };",
    );
    assert_eq!(kcs.len(), 2);
    assert_eq!(kcs[0].name, "A");
    assert_eq!(kcs[1].name, "B");
}

#[test]
fn custom_comment_and_crlf_lines() {
    let kcs = parse_custom_keycodes(
        "enum custom_keycodes {\r\n  FIRST = SAFE_RANGE, // one, two\r\n  SECOND\r\n};",
    );
    assert_eq!(kcs.len(), 2);
    assert_eq!(kcs[0].name, "FIRST");
    assert_eq!(kcs[1].name, "SECOND");
}

#[test]
fn custom_names_keep_non_ascii_text() {
    let kcs = parse_custom_keycodes("enum custom_keycodes { TAPÉ_1 = SAFE_RANGE, NEXT // fin\n };");
    assert_eq!(kcs.len(), 2);
    assert_eq!(kcs[0].name, "TAPÉ_1");
    assert_eq!(kcs[1].name, "NEXT");
}

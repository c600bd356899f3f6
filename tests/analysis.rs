use qmk_lsp::completion::{completion_candidates, Candidate};
use qmk_lsp::document::DocumentData;
use qmk_lsp::hover::{hover_target, HoverTarget};
use qmk_lsp::info_json::{find_info_json_path, DescriptorFile, DirProbe};
use qmk_lsp::knowledge::{Keycode, KnowledgeBase, Macro};
use qmk_lsp::position::{offset_of, position_of};
use qmk_lsp::validate::{validate, FindingKind, LayoutSize};

fn keycode(name: &str, description: &str) -> Keycode {
    Keycode {
        name: name.to_string(),
        description: description.to_string(),
        doc: String::new(),
        category: "basic".to_string(),
    }
}

fn macro_entry(name: &str) -> Macro {
    Macro {
        name: name.to_string(),
        detail: format!("{}(kc)", name),
        description: String::new(),
        doc: String::new(),
    }
}

fn base() -> KnowledgeBase {
    KnowledgeBase::new(
        vec![keycode("KC_A", "A"), keycode("KC_B", "B"), keycode("KC_ESC", "Escape")],
        vec![macro_entry("LT"), macro_entry("MO")],
    )
}

#[test]
fn position_counts_lines_and_utf16_columns() {
    let text = "ab\ncé😀d\nx";
    assert_eq!(position_of(text, 0), (0, 0));
    assert_eq!(position_of(text, 2), (0, 2));
    assert_eq!(position_of(text, 3), (1, 0));
    assert_eq!(position_of(text, 4), (1, 1));
    assert_eq!(position_of(text, 6), (1, 2));
    assert_eq!(position_of(text, 10), (1, 4));
    assert_eq!(position_of(text, 11), (1, 5));
    assert_eq!(position_of(text, 12), (2, 0));
    assert_eq!(position_of(text, 13), (2, 1));
}

#[test]
fn position_round_trip_on_boundaries() {
    let text = "ab\ncé😀d\nx";
    for (off, _) in text.char_indices().chain(std::iter::once((text.len(), ' '))) {
        let (line, col) = position_of(text, off);
        assert_eq!(offset_of(text, line, col), Some(off));
    }
}

#[test]
fn offset_mid_character_goes_to_next_boundary() {
    let text = "a😀b";
    assert_eq!(offset_of(text, 0, 2), Some(5));
    assert_eq!(offset_of(text, 0, 3), Some(5));
}

#[test]
fn offset_clamps_to_line_end() {
    let text = "abc\nde";
    assert_eq!(offset_of(text, 0, 10), Some(3));
    assert_eq!(offset_of(text, 1, 10), Some(6));
    assert_eq!(offset_of(text, 2, 0), None);
}

#[test]
fn layout_mismatch_reported_once() {
    let content = "[0] = LAYOUT_60_ansi(KC_A, KC_B, KC_A, KC_B)";
    let doc = DocumentData::new(content.to_string());
    let desc = Some(vec![LayoutSize { name: "LAYOUT_60_ansi".to_string(), key_count: 2 }]);
    let findings = validate(&doc, &base(), &desc);
    assert_eq!(findings.len(), 1);
    match &findings[0].kind {
        FindingKind::LayerMismatch { macro_name, expected, found } => {
            assert_eq!(macro_name, "LAYOUT_60_ansi");
            assert_eq!(*expected, 2);
            assert_eq!(*found, 4);
        }
        other => panic!("unexpected finding {:?}", other),
    }
    assert_eq!(findings[0].span.start, 0);
    assert_eq!(findings[0].span.end, content.len());
    assert_eq!(findings[0].start, (0, 0));
    assert_eq!(findings[0].end, (0, content.len()));
}

#[test]
fn matching_layout_and_unknown_macro_are_quiet() {
    let doc = DocumentData::new("[0] = LAYOUT_60_ansi(KC_A, KC_B)\n[1] = OTHER(KC_A)".to_string());
    let desc = Some(vec![LayoutSize { name: "LAYOUT_60_ansi".to_string(), key_count: 2 }]);
    assert_eq!(validate(&doc, &base(), &desc).len(), 0);
    let doc = DocumentData::new("[0] = LAYOUT_60_ansi(KC_A)".to_string());
    assert_eq!(validate(&doc, &base(), &None).len(), 0);
}

#[test]
fn unknown_keycode_each_occurrence() {
    let content = "KC_A KC_NOPE\n  KC_NOPE, xKC_B KC_B";
    let doc = DocumentData::new(content.to_string());
    let findings = validate(&doc, &base(), &None);
    assert_eq!(findings.len(), 2);
    assert!(matches!(findings[0].kind, FindingKind::UnknownKeycode));
    assert_eq!(findings[0].span, 5..12);
    assert_eq!(&content[findings[0].span.clone()], "KC_NOPE");
    assert_eq!(findings[0].start, (0, 5));
    assert_eq!(findings[0].end, (0, 12));
    assert_eq!(findings[1].span, 15..22);
    assert_eq!(findings[1].start, (1, 2));
    assert_eq!(findings[1].end, (1, 9));
}

#[test]
fn declared_custom_keycode_is_known() {
    let content = "enum custom_keycodes { KC_MINE = SAFE_RANGE };\n[0] = L(KC_MINE, KC_OTHER)";
    let doc = DocumentData::new(content.to_string());
    let desc = Some(vec![LayoutSize { name: "L".to_string(), key_count: 2 }]);
    let findings = validate(&doc, &base(), &desc);
    assert_eq!(findings.len(), 1);
    assert_eq!(&content[findings[0].span.clone()], "KC_OTHER");
}

#[test]
fn keycode_findings_come_before_layout_findings() {
    let content = "[0] = L(KC_X)";
    let doc = DocumentData::new(content.to_string());
    let desc = Some(vec![LayoutSize { name: "L".to_string(), key_count: 3 }]);
    let findings = validate(&doc, &base(), &desc);
    assert_eq!(findings.len(), 2);
    assert!(matches!(findings[0].kind, FindingKind::UnknownKeycode));
    assert!(matches!(findings[1].kind, FindingKind::LayerMismatch { .. }));
}

#[test]
fn later_duplicate_entry_wins() {
    let kb = KnowledgeBase::new(vec![keycode("KC_A", "first"), keycode("KC_A", "second")], vec![]);
    assert_eq!(kb.keycodes.len(), 1);
    assert_eq!(kb.keycodes[0].description, "second");
    assert_eq!(kb.keycode_index("KC_A".as_bytes()), Some(0));
    assert_eq!(kb.keycode_index("KC_Z".as_bytes()), None);
}

#[test]
fn hover_prefers_keycode_then_macro_then_custom() {
    let content = "enum custom_keycodes { MINE };\nLT(1, KC_ESC) MINE none";
    let doc = DocumentData::new(content.to_string());
    let kb = base();
    match hover_target(&doc, &kb, 1, 8) {
        Some(HoverTarget::Keycode(k)) => assert_eq!(kb.keycodes[k].name, "KC_ESC"),
        other => panic!("unexpected {:?}", other),
    }
    match hover_target(&doc, &kb, 1, 0) {
        Some(HoverTarget::Macro(k)) => assert_eq!(kb.macros[k].name, "LT"),
        other => panic!("unexpected {:?}", other),
    }
    assert_eq!(hover_target(&doc, &kb, 1, 16), Some(HoverTarget::Custom(0)));
    assert_eq!(hover_target(&doc, &kb, 1, 20), None);
    assert_eq!(hover_target(&doc, &kb, 1, 5), None);
    assert_eq!(hover_target(&doc, &kb, 5, 0), None);
}

#[test]
fn nearest_descriptor_wins() {
    let none = DirProbe { has_info_json: false, has_keyboard_json: false };
    let kb_only = DirProbe { has_info_json: false, has_keyboard_json: true };
    let both = DirProbe { has_info_json: true, has_keyboard_json: true };
    assert_eq!(find_info_json_path(&vec![none, kb_only, both]), Some((1, DescriptorFile::KeyboardJson)));
    assert_eq!(find_info_json_path(&vec![both, kb_only]), Some((0, DescriptorFile::InfoJson)));
    assert_eq!(find_info_json_path(&vec![none, none]), None);
    assert_eq!(find_info_json_path(&vec![]), None);
}

#[test]
fn document_keeps_text_and_scan() {
    let doc = DocumentData::new("enum custom_keycodes { A };\n[B] = L(KC_A)".to_string());
    assert_eq!(doc.content, "enum custom_keycodes { A };\n[B] = L(KC_A)");
    assert_eq!(doc.layers.len(), 1);
    assert_eq!(doc.layers[0].name, "B");
    assert_eq!(doc.custom_keycodes.len(), 1);
    assert_eq!(doc.custom_keycodes[0].name, "A");
}

#[test]
fn completion_lists_table_then_document_then_macros() {
    let doc = DocumentData::new("enum custom_keycodes { MINE };\n[BASE] = L(KC_A)".to_string());
    let kb = base();
    assert_eq!(
        completion_candidates(&kb, Some(&doc)),
        vec![
            Candidate::Keycode(0),
            Candidate::Keycode(1),
            Candidate::Keycode(2),
            Candidate::Layer(0),
            Candidate::Custom(0),
            Candidate::Macro(0),
            Candidate::Macro(1),
        ]
    );
    assert_eq!(completion_candidates(&kb, None).len(), 5);
}

use pinkytwirl::{
    build_contexts, capitalize, create_keycode_map, key_press, parse_semantic_action,
    parse_semantics, SemanticAction, YamlContext,
};
use pinkytwirl::strutil::{
    contains_substr, join_with, lines_of, parse_usize, split_char, str_eq, trim_end_char, trim_str,
};

#[test]
fn key_press_single_modifier_is_both_key_and_flag() {
    let e = key_press("meta");
    assert_eq!(e.key.as_str(), "meta");
    assert!(e.meta);
    assert!(!e.shift);
    assert!(!e.modifier_down_only);
}

#[test]
fn key_press_combination_sets_flags_and_key() {
    let e = key_press("Ctrl + Shift + Left");
    assert!(e.ctrl);
    assert!(e.shift);
    assert!(!e.alt);
    assert_eq!(e.key.as_str(), "left");
    assert_eq!(e.code, 0);
    assert_eq!(e.state, pinkytwirl::KeyState::DownUp);
}

#[test]
fn key_press_metadown_marks_modifier_only_chord() {
    let e = key_press("metadown");
    assert!(e.meta);
    assert!(e.modifier_down_only);
    assert_eq!(e.key.as_str(), "metadown");
}

#[test]
fn compile_bare_key() {
    let keycodes = create_keycode_map();
    let a = parse_semantic_action("left", &keycodes);
    match a {
        SemanticAction::KeyEvent(e) => assert_eq!(e.key.as_str(), "left"),
        other => panic!("expected a key event, got {:?}", other),
    }
}

#[test]
fn compile_unknown_name_is_deferred_reference() {
    let keycodes = create_keycode_map();
    let a = parse_semantic_action("DoThing", &keycodes);
    match a {
        SemanticAction::Action(n) => assert_eq!(n.as_str(), "dothing"),
        other => panic!("expected a deferred reference, got {:?}", other),
    }
}

#[test]
fn compile_quoted_text_is_literal() {
    let keycodes = create_keycode_map();
    let a = parse_semantic_action("\"hello there\"", &keycodes);
    match a {
        SemanticAction::LiteralString(t) => assert_eq!(t.as_str(), "hello there"),
        other => panic!("expected literal text, got {:?}", other),
    }
}

#[test]
fn compile_repetition_emits_count_copies() {
    let keycodes = create_keycode_map();
    let a = parse_semantic_action("3*left", &keycodes);
    match a {
        SemanticAction::Sequence(items) => {
            assert_eq!(items.len(), 3);
            for item in &items {
                match item {
                    SemanticAction::KeyEvent(e) => assert_eq!(e.key.as_str(), "left"),
                    other => panic!("expected a key event, got {:?}", other),
                }
            }
        }
        other => panic!("expected a sequence, got {:?}", other),
    }
}

#[test]
fn compile_repetition_bad_count_defaults_to_one() {
    let keycodes = create_keycode_map();
    let a = parse_semantic_action("x*left", &keycodes);
    match a {
        SemanticAction::KeyEvent(e) => assert_eq!(e.key.as_str(), "left"),
        other => panic!("expected a single key event, got {:?}", other),
    }
}

#[test]
fn compile_repetition_zero_gives_empty_sequence() {
    let keycodes = create_keycode_map();
    let a = parse_semantic_action("0*left", &keycodes);
    match a {
        SemanticAction::Sequence(items) => assert!(items.is_empty()),
        other => panic!("expected an empty sequence, got {:?}", other),
    }
}

#[test]
fn compile_pipe_builds_sequence() {
    let keycodes = create_keycode_map();
    let a = parse_semantic_action("left | ctrl + right", &keycodes);
    match a {
        SemanticAction::Sequence(items) => {
            assert_eq!(items.len(), 2);
            match &items[1] {
                SemanticAction::KeyEvent(e) => {
                    assert!(e.ctrl);
                    assert_eq!(e.key.as_str(), "right");
                }
                other => panic!("expected a key event, got {:?}", other),
            }
        }
        other => panic!("expected a sequence, got {:?}", other),
    }
}

#[test]
fn capitalize_uppercases_first_letter() {
    assert_eq!(capitalize("hello".to_string()).as_str(), "Hello");
    assert_eq!(capitalize("".to_string()).as_str(), "");
    assert_eq!(capitalize("Already".to_string()).as_str(), "Already");
}

#[test]
fn keycode_map_registers_all_spellings() {
    let keycodes = create_keycode_map();
    assert_eq!(keycodes.code_for_name("meta"), Some(0x37));
    assert_eq!(keycodes.code_for_name("META"), Some(0x37));
    assert_eq!(keycodes.code_for_name("returnKey"), Some(0x24));
    assert_eq!(keycodes.code_for_name("Returnkey"), Some(0x24));
    assert_eq!(keycodes.code_for_name("d4"), Some(0x15));
    assert_eq!(keycodes.code_for_name("no such key"), None);
    assert!(keycodes.contains_name("d4"));
    assert!(!keycodes.contains_name("pedal"));
}

#[test]
fn keycode_map_stores_names_lowercased_and_keeps_first_code() {
    let keycodes = create_keycode_map();
    // The name stored for a code is the lowercased spelling, and the
    // first registration for a code wins.
    assert_eq!(keycodes.name_for_code(0x24).map(|s| s.as_str()), Some("returnkey"));
    assert_eq!(keycodes.name_for_code(0x7B).map(|s| s.as_str()), Some("leftarrow"));
    assert_eq!(keycodes.name_for_code(0x4000), None);
}

#[test]
fn build_contexts_drops_dangling_parent() {
    let entries = vec![(
        "A".to_string(),
        YamlContext { aliases: vec!["a".to_string()], parent: Some("Missing".to_string()) },
    )];
    let contexts = build_contexts(entries);
    assert_eq!(contexts.len(), 1);
    assert_eq!(contexts[0].name.as_str(), "A");
    assert!(contexts[0].parent.is_none());
}

#[test]
fn build_contexts_keeps_known_parent_and_replaces_duplicates() {
    let entries = vec![
        (
            "A".to_string(),
            YamlContext { aliases: vec!["first".to_string()], parent: None },
        ),
        (
            "B".to_string(),
            YamlContext { aliases: vec![], parent: Some("A".to_string()) },
        ),
        (
            "A".to_string(),
            YamlContext { aliases: vec!["second".to_string()], parent: None },
        ),
    ];
    let contexts = build_contexts(entries);
    assert_eq!(contexts.len(), 2);
    assert_eq!(contexts[0].name.as_str(), "A");
    assert_eq!(contexts[0].aliases[0].as_str(), "second");
    assert_eq!(contexts[1].name.as_str(), "B");
    assert_eq!(contexts[1].parent.as_deref(), Some("A"));
}

#[test]
fn semantics_block_for_unknown_context_is_skipped() {
    let entries = vec![(
        "A".to_string(),
        YamlContext { aliases: vec![], parent: None },
    )];
    let mut contexts = build_contexts(entries);
    let keycodes = create_keycode_map();
    parse_semantics("Nope:\n    X = left\n", &mut contexts, &keycodes);
    assert_eq!(contexts.len(), 1);
    assert!(contexts[0].semantic_actions.is_empty());
}

#[test]
fn semantics_stores_both_name_spellings() {
    let entries = vec![(
        "A".to_string(),
        YamlContext { aliases: vec![], parent: None },
    )];
    let mut contexts = build_contexts(entries);
    let keycodes = create_keycode_map();
    parse_semantics("A:\n    MoveLeft = left\n", &mut contexts, &keycodes);
    let names: Vec<&str> = contexts[0]
        .semantic_actions
        .iter()
        .map(|(n, _)| n.as_str())
        .collect();
    assert_eq!(names, vec!["MoveLeft", "moveleft"]);
}

#[test]
fn split_char_keeps_empty_segments() {
    let parts = split_char("a|b||c", '|');
    let parts: Vec<&str> = parts.iter().map(|s| s.as_str()).collect();
    assert_eq!(parts, vec!["a", "b", "", "c"]);
    let lone = split_char("", '|');
    assert_eq!(lone.len(), 1);
    assert_eq!(lone[0].as_str(), "");
}

#[test]
fn trim_str_removes_surrounding_whitespace() {
    assert_eq!(trim_str("  x y\t "), "x y");
    assert_eq!(trim_str("\t \t"), "");
    assert_eq!(trim_str("none"), "none");
}

#[test]
fn trim_end_char_strips_every_trailing_occurrence() {
    assert_eq!(trim_end_char("Foo::", ':'), "Foo");
    assert_eq!(trim_end_char("Foo", ':'), "Foo");
    assert_eq!(trim_end_char(":::", ':'), "");
}

#[test]
fn parse_usize_reads_decimal_numbers() {
    assert_eq!(parse_usize("42"), Some(42));
    assert_eq!(parse_usize("+7"), Some(7));
    assert_eq!(parse_usize("0"), Some(0));
    assert_eq!(parse_usize(""), None);
    assert_eq!(parse_usize("4x"), None);
    assert_eq!(parse_usize("99999999999999999999999999"), None);
}

#[test]
fn contains_substr_finds_contiguous_matches() {
    assert!(contains_substr("hello", "ell"));
    assert!(contains_substr("hello", ""));
    assert!(!contains_substr("ell", "hello"));
    assert!(!contains_substr("hello", "elo"));
}

#[test]
fn join_with_places_separator_between_parts() {
    let parts = vec!["meta".to_string(), "j".to_string()];
    assert_eq!(join_with(&parts, " + ").as_str(), "meta + j");
    let one = vec!["meta".to_string()];
    assert_eq!(join_with(&one, " + ").as_str(), "meta");
    let none: Vec<String> = Vec::new();
    assert_eq!(join_with(&none, " + ").as_str(), "");
}

#[test]
fn lines_of_splits_and_strips_carriage_returns() {
    let ls = lines_of("a\r\nb\nc");
    let ls: Vec<&str> = ls.iter().map(|s| s.as_str()).collect();
    assert_eq!(ls, vec!["a", "b", "c"]);
    let trailing = lines_of("a\n");
    assert_eq!(trailing.len(), 1);
    let empty = lines_of("");
    assert!(empty.is_empty());
}

#[test]
fn str_eq_compares_by_characters() {
    assert!(str_eq("abc", "abc"));
    assert!(!str_eq("abc", "abd"));
    assert!(!str_eq("abc", "ab"));
}

#[test]
fn mappings_register_stem_and_full_chords() {
    let entries = vec![(
        "A".to_string(),
        YamlContext { aliases: vec![], parent: None },
    )];
    let mut contexts = build_contexts(entries);
    let keycodes = create_keycode_map();
    pinkytwirl::parse_mappings("A:\n    Meta:\n    J = left\n", &mut contexts, &keycodes);
    let keys: Vec<&str> = contexts[0].key_mappings.iter().map(|(k, _)| k.as_str()).collect();
    assert_eq!(keys, vec!["meta", "meta + j"]);
    match &contexts[0].key_mappings[0].1 {
        SemanticAction::Action(n) => assert_eq!(n.as_str(), "MappingStem"),
        other => panic!("expected the stem sentinel, got {:?}", other),
    }
    match &contexts[0].key_mappings[1].1 {
        SemanticAction::KeyEvent(e) => assert_eq!(e.key.as_str(), "left"),
        other => panic!("expected a key event, got {:?}", other),
    }
}

#[test]
fn mappings_without_prefix_bind_the_plain_key() {
    let entries = vec![(
        "A".to_string(),
        YamlContext { aliases: vec![], parent: None },
    )];
    let mut contexts = build_contexts(entries);
    let keycodes = create_keycode_map();
    pinkytwirl::parse_mappings("A:\n    F5 = left\n", &mut contexts, &keycodes);
    let keys: Vec<&str> = contexts[0].key_mappings.iter().map(|(k, _)| k.as_str()).collect();
    assert_eq!(keys, vec!["f5"]);
}

#[test]
fn mappings_block_for_unknown_context_is_skipped() {
    let entries = vec![(
        "A".to_string(),
        YamlContext { aliases: vec![], parent: None },
    )];
    let mut contexts = build_contexts(entries);
    let keycodes = create_keycode_map();
    pinkytwirl::parse_mappings("Nope:\n    j = left\n", &mut contexts, &keycodes);
    assert!(contexts[0].key_mappings.is_empty());
}

use pinkytwirl::{KeyEvent, KeyState, PinkyTwirlEngine, YamlContext};

// Helper functions
fn yc(aliases: &[&str], parent: Option<&str>) -> YamlContext {
    YamlContext {
        aliases: aliases.iter().map(|s| s.to_string()).collect(),
        parent: parent.map(|s| s.to_string()),
    }
}

fn standard_entries(with_default: bool) -> Vec<(String, YamlContext)> {
    let mut entries = vec![
        ("VSCode".to_string(), yc(&["Visual Studio Code"], Some("Default"))),
        ("Firefox".to_string(), yc(&["Firefox"], None)),
        ("CommandPrompt".to_string(), yc(&["cmd", "Command Prompt"], None)),
        ("NotepadPlusPlus".to_string(), yc(&["Notepad++"], None)),
    ];
    if with_default {
        entries.push(("Default".to_string(), yc(&[], None)));
    }
    entries
}

fn semantics_src() -> &'static str {
    "Default:\n    MoveLeft = left\n    SwitchTab = ctrl + tab\nVSCode:\n    MoveLeft = left\n    SelectLeftWord = shift + ctrl + left\n"
}

fn mappings_src() -> &'static str {
    "VSCode:\n    meta:\n    j = MoveLeft\n    tab = SwitchTab\n    d4:\n    m = SelectLeftWord\n"
}

fn get_engine() -> PinkyTwirlEngine {
    let mut engine = PinkyTwirlEngine::new(Vec::new());
    let startup = engine.load_configurations(standard_entries(true), semantics_src(), mappings_src());
    assert!(startup.is_ok(), "Failed to load configurations");
    engine
}

fn key_down(key: &str) -> KeyEvent {
    let (key_str, shift, ctrl, alt, meta) = parse_key_string(key);
    KeyEvent {
        key: key_str,
        code: 0,
        state: KeyState::Down,
        shift,
        ctrl,
        alt,
        meta,
        func: false,
        modifier_down_only: false,
    }
}

fn key_up(key: &str) -> KeyEvent {
    let (key_str, shift, ctrl, alt, meta) = parse_key_string(key);
    KeyEvent {
        key: key_str,
        code: 0,
        state: KeyState::Up,
        shift,
        ctrl,
        alt,
        meta,
        func: false,
        modifier_down_only: false,
    }
}

fn parse_key_string(key: &str) -> (String, bool, bool, bool, bool) {
    let parts: Vec<&str> = key.split(" + ").collect();
    let mut shift = false;
    let mut ctrl = false;
    let mut alt = false;
    let mut meta = false;

    let key_str = if parts.len() > 1 {
        for &part in &parts[..parts.len() - 1] {
            match part.to_lowercase().as_str() {
                "shift" => shift = true,
                "ctrl" => ctrl = true,
                "alt" => alt = true,
                "meta" => meta = true,
                _ => (),
            }
        }
        parts[parts.len() - 1].to_string()
    } else {
        parts[0].to_string()
    };

    (key_str, shift, ctrl, alt, meta)
}

#[test]
fn test_context_matching() {
    let engine = get_engine();

    let test_cases = vec![
        ("Visual Studio Code", "main.rs - MyProject", Some("VSCode")),
        ("FIREFOX", "Google - Mozilla Firefox", Some("Firefox")),
        ("cmd", "Command Prompt", Some("CommandPrompt")),
        (
            "notepad++",
            "config.txt - Notepad++",
            Some("NotepadPlusPlus"),
        ),
        ("unknown_app", "Unknown Window", Some("Default")),
    ];

    for (app_name, window_name, expected_context) in test_cases {
        match engine.get_context(app_name, window_name) {
            Some(context) => {
                assert_eq!(
                    Some(context.name.as_str()),
                    expected_context,
                    "Unexpected context match for '{}' - '{}'",
                    app_name,
                    window_name
                );
            }
            None => {
                assert_eq!(
                    None, expected_context,
                    "Expected no context match for '{}' - '{}'",
                    app_name, window_name
                );
            }
        }
    }
}

#[test]
fn engine_tests_test_context_matching() {
    // The same table without a fallback context: an unknown
    // application matches nothing at all.
    let mut engine = PinkyTwirlEngine::new(Vec::new());
    engine
        .load_configurations(standard_entries(false), semantics_src(), mappings_src())
        .expect("Failed to load configurations");

    let test_cases = vec![
        ("Visual Studio Code", "main.rs - MyProject", Some("VSCode")),
        ("FIREFOX", "Google - Mozilla Firefox", Some("Firefox")),
        ("cmd", "Command Prompt", Some("CommandPrompt")),
        (
            "notepad++",
            "config.txt - Notepad++",
            Some("NotepadPlusPlus"),
        ),
        ("unknown_app", "Unknown Window", None),
    ];

    for (app_name, window_name, expected_context) in test_cases {
        match engine.get_context(app_name, window_name) {
            Some(context) => {
                assert_eq!(
                    Some(context.name.as_str()),
                    expected_context,
                    "Unexpected context match for '{}' - '{}'",
                    app_name,
                    window_name
                );
            }
            None => {
                assert_eq!(
                    None, expected_context,
                    "Expected no context match for '{}' - '{}'",
                    app_name, window_name
                );
            }
        }
    }
}

#[test]
fn test_config_loading() {
    let mut engine = PinkyTwirlEngine::new(Vec::new());
    assert!(
        engine
            .load_configurations(standard_entries(true), semantics_src(), mappings_src())
            .is_ok(),
        "Configuration loading should succeed"
    );
}

#[test]
fn test_chord_resolution_nav_left() {
    // Meta + J -> Left
    let mut engine = get_engine();

    let chord_sequence = vec![
        // Key event, expected to suppress, expected number of pressed keys.
        (key_down("meta"), true, 1),
        (key_down("meta + j"), true, 1),
        (key_up("meta + j"), false, 1),
        (key_up("meta"), false, 0),
    ];

    for i in 0..3 {
        let mut synthetic_events_found = false;
        for (event, expected_suppress, expected_pressed_keys) in &chord_sequence {
            let (suppress, synthetic_events) =
                engine.handle_key_event(event.clone(), "Visual Studio Code", "main.rs - MyProject");
            if !synthetic_events.is_empty() {
                synthetic_events_found = true;
            }
            assert_eq!(engine.pressed_keys.len(), *expected_pressed_keys, "Number of keys still pressed is wrong [iteration {}]", i);
            assert_eq!(suppress, *expected_suppress, "Key event suppression is wrong [iteration {}]", i);
        }

        assert!(
            synthetic_events_found,
            "Chord sequence should generate at least one synthetic event"
        );
    }
}

#[test]
fn test_chord_resolution_select_left_word() {
    let mut engine = get_engine();

    let chord_sequence = vec![
        // Key event, expected to suppress, expected number of pressed keys.
        (key_down("d4"), true, 1),
        (key_down("d4 + m"), true, 1),
        (key_up("d4 + m"), false, 1),
        (key_up("d4"), false, 0),
    ];

    for i in 0..3 {
        let mut synthetic_events_found = false;
        for (event, expected_suppress, expected_pressed_keys) in &chord_sequence {
            let (suppress, synthetic_events) =
                engine.handle_key_event(event.clone(), "Visual Studio Code", "main.rs - MyProject");
            if !synthetic_events.is_empty() {
                synthetic_events_found = true;
            }
            assert_eq!(engine.pressed_keys.len(), *expected_pressed_keys, "Number of keys still pressed is wrong [iteration {}]", i);
            assert_eq!(suppress, *expected_suppress, "Key event suppression is wrong [iteration {}]", i);
        }

        assert!(
            synthetic_events_found,
            "Chord sequence should generate at least one synthetic event"
        );
    }
}

#[test]
fn test_chord_resolution_letter_l() {
    // L -> L  (no chord)
    let mut engine = get_engine();

    let chord_sequence = vec![
        // Key event, expected to suppress, expected number of pressed keys.
        (key_down("l"), false, 1),
        (key_up("l"), false, 0),
    ];

    for i in 0..3 {
        let mut synthetic_events_found = false;
        for (event, expected_suppress, expected_pressed_keys) in &chord_sequence {
            let (suppress, synthetic_events) =
                engine.handle_key_event(event.clone(), "Visual Studio Code", "main.rs - MyProject");
            if !synthetic_events.is_empty() {
                synthetic_events_found = true;
            }
            assert_eq!(engine.pressed_keys.len(), *expected_pressed_keys, "Number of keys still pressed is wrong [iteration {}]", i);
            assert_eq!(suppress, *expected_suppress, "Key event suppression is wrong [iteration {}]", i);
        }

        println!("{:?}", engine.pressed_keys);
        assert!(engine.pressed_keys.is_empty(), "Pressed keys should be empty [iteration {}]", i);

        assert!(
            !synthetic_events_found,
            "There should be no synthetic events for a single key press of 'L' [iteration {}]",
            i
        );
    }
}

#[test]
fn test_chord_resolution_number_key_4() {
    // 4 -> 4  (maybe a chord, but turns out not to be)
    // The stem sentinel is itself given a definition here, so an
    // unfinished chord still produces visible output.
    let mut engine = PinkyTwirlEngine::new(Vec::new());
    let semantics = "Default:\n    MoveLeft = left\nVSCode:\n    MappingStem = four\n    SelectLeftWord = shift + ctrl + left\n";
    engine
        .load_configurations(standard_entries(true), semantics, mappings_src())
        .expect("Failed to load configurations");

    let chord_sequence = vec![
        // Key event, expected to suppress, expected number of pressed keys.
        (key_down("d4"), true, 1),
        (key_up("d4"), false, 0),
    ];

    for i in 0..3 {
        let mut synthetic_events_found = false;
        for (event, expected_suppress, expected_pressed_keys) in &chord_sequence {
            let (suppress, synthetic_events) =
                engine.handle_key_event(event.clone(), "Visual Studio Code", "main.rs - MyProject");
            if !synthetic_events.is_empty() {
                synthetic_events_found = true;
            }
            assert_eq!(engine.pressed_keys.len(), *expected_pressed_keys, "Number of keys still pressed is wrong [iteration {}]", i);
            assert_eq!(suppress, *expected_suppress, "Key event suppression is wrong [iteration {}]", i);
        }

        println!("{:?}", engine.pressed_keys);
        assert!(engine.pressed_keys.is_empty(), "Pressed keys should be empty [iteration {}]", i);

        assert!(
            synthetic_events_found,
            "There *should* be synthetic events for a single key press of '4' [iteration {}]",
            i
        );
    }
}

#[test]
fn test_key_events() {
    // A table that binds only meta + tab, so that a later plain j is
    // swallowed silently rather than resolved.
    let mut engine = PinkyTwirlEngine::new(Vec::new());
    let mappings = "VSCode:\n    meta:\n    tab = SwitchTab\n";
    engine
        .load_configurations(standard_entries(true), semantics_src(), mappings)
        .expect("Failed to load configurations");

    // Test meta key sequence
    let meta_sequence = vec![key_down("meta"), key_down("meta + tab")];

    for event in meta_sequence {
        let (_suppress, synthetic_events) =
            engine.handle_key_event(event.clone(), "Visual Studio Code", "main.rs - MyProject");
        // Add assertions based on expected behavior
        match event.key.as_str() {
            "meta" => assert!(synthetic_events.is_empty(), "Meta key should be suppressed"),
            "tab" => assert!(
                !synthetic_events.is_empty(),
                "Meta + Tab should generate synthetic events"
            ),
            _ => panic!("Unexpected key in test sequence"),
        }
    }

    // Test simple key sequence
    let simple_sequence = vec![key_down("j"), key_up("j")];

    for event in simple_sequence {
        let (_suppress, synthetic_events) =
            engine.handle_key_event(event.clone(), "Visual Studio Code", "main.rs - MyProject");
        assert!(
            synthetic_events.is_empty(),
            "Simple key events should pass through"
        );
    }
}

#[test]
fn test_chord_resolution() {
    let mut engine = get_engine();

    let chord_sequence = vec![
        key_down("meta"),
        key_down("meta + j"),
        key_up("meta + j"),
        key_up("meta"),
    ];

    let mut synthetic_events_found = false;
    for event in chord_sequence {
        let (_suppress, synthetic_events) =
            engine.handle_key_event(event.clone(), "Visual Studio Code", "main.rs - MyProject");
        if !synthetic_events.is_empty() {
            synthetic_events_found = true;
        }
    }

    assert!(
        synthetic_events_found,
        "Chord sequence should generate at least one synthetic event"
    );
}

use pinkytwirl::{KeyEvent, KeyState, PinkyTwirlEngine, YamlContext};

fn yc(aliases: &[&str], parent: Option<&str>) -> YamlContext {
    YamlContext {
        aliases: aliases.iter().map(|s| s.to_string()).collect(),
        parent: parent.map(|s| s.to_string()),
    }
}

fn vscode_entries() -> Vec<(String, YamlContext)> {
    vec![
        ("VSCode".to_string(), yc(&["Visual Studio Code"], None)),
    ]
}

fn down(key: &str, meta: bool) -> KeyEvent {
    KeyEvent {
        key: key.to_string(),
        code: 0,
        state: KeyState::Down,
        shift: false,
        ctrl: false,
        alt: false,
        meta,
        func: false,
        modifier_down_only: false,
    }
}

fn up(key: &str, meta: bool) -> KeyEvent {
    KeyEvent {
        key: key.to_string(),
        code: 0,
        state: KeyState::Up,
        shift: false,
        ctrl: false,
        alt: false,
        meta,
        func: false,
        modifier_down_only: false,
    }
}

fn scenario_engine() -> PinkyTwirlEngine {
    let mut engine = PinkyTwirlEngine::new(Vec::new());
    let semantics = "VSCode:\n    MoveLeft = left\n    SelectLeftWord = shift + ctrl + left\n";
    let mappings = "VSCode:\n    meta:\n    j = MoveLeft\n    d4:\n    m = SelectLeftWord\n";
    engine
        .load_configurations(vscode_entries(), semantics, mappings)
        .expect("Failed to load configurations");
    engine
}

// An alias match beats the window title: the VSCode context is found
// through its "Visual Studio Code" alias.
#[test]
fn scenario_alias_match() {
    let engine = scenario_engine();
    let ctx = engine.get_context("Visual Studio Code", "main.rs - MyProject");
    assert!(ctx.is_some());
    assert_eq!(ctx.unwrap().name.as_str(), "VSCode");
}

// A chord resolves through a macro reference: meta then j fires
// MoveLeft, the synthetic output is one atomic tap of "left", and
// only meta stays in the queue.
#[test]
fn scenario_chord_fires_macro() {
    let mut engine = scenario_engine();
    let (s1, e1) = engine.handle_key_event(down("meta", true), "Visual Studio Code", "w");
    assert!(s1);
    assert!(e1.is_empty());
    let (s2, e2) = engine.handle_key_event(down("j", true), "Visual Studio Code", "w");
    assert!(s2);
    assert_eq!(e2.len(), 1);
    assert_eq!(e2[0].key.as_str(), "left");
    assert_eq!(e2[0].state, KeyState::DownUp);
    assert_eq!(engine.pressed_keys.len(), 1);
    assert_eq!(engine.pressed_keys[0].key.as_str(), "meta");
}

// A lone unmapped key passes through on Down and on Up, and leaves
// the queue empty.
#[test]
fn scenario_unmapped_key_passes_through() {
    let mut engine = scenario_engine();
    let (s1, e1) = engine.handle_key_event(down("l", false), "Visual Studio Code", "w");
    assert!(!s1);
    assert!(e1.is_empty());
    let (s2, e2) = engine.handle_key_event(up("l", false), "Visual Studio Code", "w");
    assert!(!s2);
    assert!(e2.is_empty());
    assert!(engine.pressed_keys.is_empty());
}

// A mapping prefix registers a stem: d4 alone is suppressed with no
// output; a following m completes the chord and resolves; both
// releases pass through and empty the queue.
#[test]
fn scenario_stem_builds_chord() {
    let mut engine = scenario_engine();
    let (s1, e1) = engine.handle_key_event(down("d4", false), "Visual Studio Code", "w");
    assert!(s1);
    assert!(e1.is_empty());
    let (s2, e2) = engine.handle_key_event(down("m", false), "Visual Studio Code", "w");
    assert!(s2);
    assert_eq!(e2.len(), 1);
    assert_eq!(e2[0].key.as_str(), "left");
    assert!(e2[0].shift);
    assert!(e2[0].ctrl);
    let (s3, e3) = engine.handle_key_event(up("m", false), "Visual Studio Code", "w");
    assert!(!s3);
    assert!(e3.is_empty());
    let (s4, e4) = engine.handle_key_event(up("d4", false), "Visual Studio Code", "w");
    assert!(!s4);
    assert!(e4.is_empty());
    assert!(engine.pressed_keys.is_empty());
}

// Chord signatures are order-sensitive: j pressed before meta builds
// the signature "j + meta", which is not bound, so nothing fires.
#[test]
fn scenario_signature_order_matters() {
    let mut engine = scenario_engine();
    let (s1, _) = engine.handle_key_event(down("j", false), "Visual Studio Code", "w");
    // "j" alone is no chord and no stem: it passes through.
    assert!(!s1);
    let (s2, e2) = engine.handle_key_event(down("meta", true), "Visual Studio Code", "w");
    // The engine is in pass-through mode until reset, so nothing fires.
    assert!(!s2);
    assert!(e2.is_empty());
    // After releasing everything the original order fires as usual.
    engine.handle_key_event(up("meta", true), "Visual Studio Code", "w");
    engine.handle_key_event(up("j", false), "Visual Studio Code", "w");
    let (_, _) = engine.handle_key_event(down("meta", true), "Visual Studio Code", "w");
    let (s3, e3) = engine.handle_key_event(down("j", true), "Visual Studio Code", "w");
    assert!(s3);
    assert_eq!(e3.len(), 1);
}

// Releasing meta resets the engine completely: the queue is empty
// and both suppression flags are clear, so the next chord works.
#[test]
fn scenario_meta_release_resets() {
    let mut engine = scenario_engine();
    engine.handle_key_event(down("meta", true), "Visual Studio Code", "w");
    engine.handle_key_event(down("j", true), "Visual Studio Code", "w");
    engine.handle_key_event(up("meta", true), "Visual Studio Code", "w");
    assert!(engine.pressed_keys.is_empty());
    assert!(!engine.no_mapping_until_reset);
    assert!(!engine.only_mappings_until_reset);
    // The same chord fires again from the clean state.
    let (_, _) = engine.handle_key_event(down("meta", true), "Visual Studio Code", "w");
    let (s, e) = engine.handle_key_event(down("j", true), "Visual Studio Code", "w");
    assert!(s);
    assert_eq!(e.len(), 1);
}

// Resolving the same definition twice from an unchanged context
// model yields identical output lists.
#[test]
fn scenario_resolution_repeatable() {
    let mut engine = scenario_engine();
    let mut outputs: Vec<Vec<KeyEvent>> = Vec::new();
    for _ in 0..2 {
        engine.handle_key_event(down("meta", true), "Visual Studio Code", "w");
        let (_, e) = engine.handle_key_event(down("j", true), "Visual Studio Code", "w");
        outputs.push(e);
        engine.handle_key_event(up("j", true), "Visual Studio Code", "w");
        engine.handle_key_event(up("meta", true), "Visual Studio Code", "w");
    }
    assert_eq!(outputs[0], outputs[1]);
}

// The platform translation: raw key codes come in, the chord fires,
// and the drained synthetic buffer holds a press/release pair with
// the code of "left" stamped back on.
#[test]
fn scenario_platform_translation() {
    let mut engine = scenario_engine();
    // 0x37 is meta, 0x26 is j, 0x7B is left.
    let s1 = engine.macos_handle_key_event(0x37, true, false, false, false, true, "Visual Studio Code", "w");
    assert!(s1);
    let s2 = engine.macos_handle_key_event(0x26, true, false, false, false, true, "Visual Studio Code", "w");
    assert!(s2);
    let synth = engine.get_synthetic_events();
    assert_eq!(synth.len(), 2);
    assert_eq!(synth[0].key.as_str(), "left");
    assert_eq!(synth[0].state, KeyState::Down);
    assert_eq!(synth[0].code, 0x7B);
    assert_eq!(synth[1].key.as_str(), "left");
    assert_eq!(synth[1].state, KeyState::Up);
    assert_eq!(synth[1].code, 0x7B);
    // The buffer is drained.
    assert!(engine.get_synthetic_events().is_empty());
}

// An unknown key code is handled under the sentinel name and passes
// through.
#[test]
fn scenario_unknown_key_code() {
    let mut engine = scenario_engine();
    let s = engine.macos_handle_key_event(0x7000, true, false, false, false, false, "Visual Studio Code", "w");
    assert!(!s);
    assert_eq!(engine.pressed_keys.len(), 1);
    assert_eq!(engine.pressed_keys[0].key.as_str(), "Unknown");
}

// A broken continuation after a fired chord is swallowed silently:
// suppression without replay.
#[test]
fn scenario_broken_continuation_swallowed() {
    let mut engine = scenario_engine();
    engine.handle_key_event(down("meta", true), "Visual Studio Code", "w");
    let (s, e) = engine.handle_key_event(down("j", true), "Visual Studio Code", "w");
    assert!(s);
    assert_eq!(e.len(), 1);
    // "meta + x" is not bound; the chord already fired this session.
    let (s2, e2) = engine.handle_key_event(down("x", true), "Visual Studio Code", "w");
    assert!(s2);
    assert!(e2.is_empty());
}

// With no matching context at all, every event passes through.
#[test]
fn scenario_no_context_passes_through() {
    let mut engine = scenario_engine();
    let (s, e) = engine.handle_key_event(down("meta", true), "someapp", "somewindow");
    assert!(!s);
    assert!(e.is_empty());
    assert_eq!(engine.pressed_keys.len(), 1);
}

// Context matching is deterministic: repeating the same query gives
// the same context.
#[test]
fn scenario_matching_deterministic() {
    let engine = scenario_engine();
    let first = engine.get_context("Visual Studio Code", "w").map(|c| c.name.clone());
    let second = engine.get_context("Visual Studio Code", "w").map(|c| c.name.clone());
    assert_eq!(first, second);
    assert_eq!(first.as_deref(), Some("VSCode"));
}

// A cyclic parent chain cannot hang the engine: the walk is bounded
// and the unmatched key falls back to pass-through.
#[test]
fn scenario_cyclic_parent_chain_terminates() {
    let mut engine = PinkyTwirlEngine::new(Vec::new());
    let entries = vec![
        ("A".to_string(), yc(&["appa"], Some("B"))),
        ("B".to_string(), yc(&[], Some("A"))),
    ];
    engine
        .load_configurations(entries, "", "")
        .expect("Failed to load configurations");
    let (s, e) = engine.handle_key_event(down("q", false), "appa", "w");
    assert!(!s);
    assert!(e.is_empty());
}

// A cyclic macro reference cannot hang resolution: the chord still
// fires, with empty synthetic output.
#[test]
fn scenario_cyclic_macro_resolves_to_nothing() {
    let mut engine = PinkyTwirlEngine::new(Vec::new());
    let entries = vec![("A".to_string(), yc(&["appa"], None))];
    let semantics = "A:\n    Twist = Shout\n    Shout = Twist\n";
    let mappings = "A:\n    f5 = Twist\n";
    engine
        .load_configurations(entries, semantics, mappings)
        .expect("Failed to load configurations");
    let (s, e) = engine.handle_key_event(down("f5", false), "appa", "w");
    assert!(s);
    assert!(e.is_empty());
}

// An atomic tap event on the raw input path is ignored outright.
#[test]
fn scenario_tap_event_is_ignored() {
    let mut engine = scenario_engine();
    let tap = KeyEvent {
        key: "j".to_string(),
        code: 0,
        state: KeyState::DownUp,
        shift: false,
        ctrl: false,
        alt: false,
        meta: false,
        func: false,
        modifier_down_only: false,
    };
    let (s, e) = engine.handle_key_event(tap, "Visual Studio Code", "w");
    assert!(!s);
    assert!(e.is_empty());
    assert!(engine.pressed_keys.is_empty());
}

// Auto-repeat of a held key does not grow the queue.
#[test]
fn scenario_autorepeat_deduplicated() {
    let mut engine = scenario_engine();
    engine.handle_key_event(down("meta", true), "Visual Studio Code", "w");
    engine.handle_key_event(down("meta", true), "Visual Studio Code", "w");
    assert_eq!(engine.pressed_keys.len(), 1);
}

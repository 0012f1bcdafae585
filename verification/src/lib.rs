//! A context-aware keyboard chord remapping engine.
//!
//! The library models named contexts (selected by the foreground
//! application or window name), a small action grammar that compiles
//! textual definitions into semantic action trees, and a stateful
//! engine that consumes key events one at a time, matches chords
//! against the active context, and produces synthetic key events.

pub mod contexts;
pub mod engine;
pub mod keycode_macos;
pub mod laws;
pub mod mappings;
pub mod model;
pub mod semantics;
pub mod strutil;

pub use contexts::Context;
pub use contexts::KeyEvent;
pub use contexts::KeyState;
pub use contexts::SemanticAction;
pub use contexts::YamlContext;
pub use contexts::build_contexts;
pub use contexts::key_press;
pub use contexts::parse_semantic_action;
pub use engine::PinkyTwirlEngine;
pub use keycode_macos::KeyCodeLookup;
pub use keycode_macos::capitalize;
pub use keycode_macos::create_keycode_map;
pub use mappings::parse_mappings;
pub use semantics::parse_semantics;

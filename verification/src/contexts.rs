//! Key events, the semantic action tree, contexts, and the small
//! action grammar that compiles textual definitions.

use vstd::prelude::*;

use crate::model::{ActionModel, CtxModel, EventModel, assoc_lookup, assoc_insert,
    lemma_assoc_lookup_at, lemma_assoc_lookup_none, lemma_assoc_insert_at, lemma_assoc_insert_push,
};
use crate::keycode_macos::KeyCodeLookup;
use crate::strutil::{contains_char, find_char_spec, lemma_find_char_spec, lower_of,
    parse_usize, parse_usize_spec, seq_contains_char, split_char, split_char_spec,
    split_once_char, str_eq, str_lower, trim_spec, trim_str,
};

verus! {

/// Whether a key event is a press, a release, or an atomic synthetic
/// tap with no sustained hold.
#[derive(Debug, Clone, Copy, PartialEq, Eq, Structural, Hash)]
pub enum KeyState {
    Up,
    Down,
    DownUp,
}

/// A canonical keystroke: a lowercase key name, the platform numeric
/// code, the press state and the modifier flags.
#[derive(Debug, Clone, PartialEq, Eq)]
pub struct KeyEvent {
    pub key: String,
    pub code: i64,
    pub state: KeyState,
    pub shift: bool,
    pub ctrl: bool,
    pub alt: bool,
    pub meta: bool,
    pub func: bool,
    pub modifier_down_only: bool,
}

impl KeyEvent {
    /// The mathematical value of this event.
    pub open spec fn model(self) -> EventModel {
        EventModel {
            key: self.key@,
            code: self.code as int,
            state: self.state,
            shift: self.shift,
            ctrl: self.ctrl,
            alt: self.alt,
            meta: self.meta,
            func: self.func,
            modifier_down_only: self.modifier_down_only,
        }
    }

    pub fn get_code(&self) -> (r: i64)
        ensures
            r == self.code,
    {
        self.code
    }

    pub fn is_down(&self) -> (r: bool)
        ensures
            r == (self.state == KeyState::Down || self.state == KeyState::DownUp),
    {
        self.state == KeyState::Down || self.state == KeyState::DownUp
    }

    pub fn get_shift(&self) -> (r: bool)
        ensures
            r == self.shift,
    {
        self.shift
    }

    pub fn get_ctrl(&self) -> (r: bool)
        ensures
            r == self.ctrl,
    {
        self.ctrl
    }

    pub fn get_alt(&self) -> (r: bool)
        ensures
            r == self.alt,
    {
        self.alt
    }

    pub fn get_meta(&self) -> (r: bool)
        ensures
            r == self.meta,
    {
        self.meta
    }

    pub fn get_fn(&self) -> (r: bool)
        ensures
            r == self.func,
    {
        self.func
    }

    /// An exact copy of this event.
    pub fn duplicate(&self) -> (r: KeyEvent)
        ensures
            r == *self,
    {
        KeyEvent {
            key: self.key.clone(),
            code: self.code,
            state: self.state,
            shift: self.shift,
            ctrl: self.ctrl,
            alt: self.alt,
            meta: self.meta,
            func: self.func,
            modifier_down_only: self.modifier_down_only,
        }
    }
}

/// The accumulator that reading a combination's tokens left to right
/// builds up.
pub ghost struct KeyPressAcc {
    pub key: Seq<char>,
    pub shift: bool,
    pub ctrl: bool,
    pub alt: bool,
    pub meta: bool,
    pub func: bool,
    pub modifier_down_only: bool,
}

pub open spec fn key_press_acc_init() -> KeyPressAcc {
    KeyPressAcc {
        key: Seq::empty(),
        shift: false,
        ctrl: false,
        alt: false,
        meta: false,
        func: false,
        modifier_down_only: false,
    }
}

/// One token of a combination: a named modifier sets its flag, the
/// token `metadown` also marks the event as firing on the modifier's
/// own press, and any other token becomes the key name.
pub open spec fn key_press_step(acc: KeyPressAcc, tok: Seq<char>) -> KeyPressAcc {
    if tok == "shift"@ {
        KeyPressAcc { shift: true, ..acc }
    } else if tok == "ctrl"@ {
        KeyPressAcc { ctrl: true, ..acc }
    } else if tok == "alt"@ {
        KeyPressAcc { alt: true, ..acc }
    } else if tok == "meta"@ {
        KeyPressAcc { meta: true, ..acc }
    } else if tok == "metadown"@ {
        KeyPressAcc { meta: true, modifier_down_only: true, ..acc }
    } else if tok == "fn"@ {
        KeyPressAcc { func: true, ..acc }
    } else {
        KeyPressAcc { key: tok, ..acc }
    }
}

pub open spec fn key_press_fold(toks: Seq<Seq<char>>) -> KeyPressAcc
    decreases toks.len(),
{
    if toks.len() == 0 {
        key_press_acc_init()
    } else {
        key_press_step(key_press_fold(toks.take(toks.len() - 1)), toks[toks.len() - 1])
    }
}

/// The tokens of a combination: split on `+`, each trimmed and
/// lowercased.
pub open spec fn combo_tokens(s: Seq<char>) -> Seq<Seq<char>> {
    split_char_spec(s, '+').map_values(|p: Seq<char>| lower_of(trim_spec(p)))
}

/// What `key_press` returns for a combination: the folded modifier
/// flags; the key name is the last token that named no modifier, or,
/// when the combination is a single token, that token itself.
pub open spec fn key_press_spec(s: Seq<char>) -> EventModel {
    let toks = combo_tokens(s);
    let acc = key_press_fold(toks);
    EventModel {
        key: if toks.len() == 1 {
            toks[0]
        } else {
            acc.key
        },
        code: 0,
        state: KeyState::DownUp,
        shift: acc.shift,
        ctrl: acc.ctrl,
        alt: acc.alt,
        meta: acc.meta,
        func: acc.func,
        modifier_down_only: acc.modifier_down_only,
    }
}

/// Compiles a modifier-plus-key combination such as `ctrl + shift + left`
/// into a single synthetic key event.
pub fn key_press(s: &str) -> (r: KeyEvent)
    ensures
        r.model() == key_press_spec(s@),
{
    let raw = split_char(s, '+');
    let ghost toks = combo_tokens(s@);
    proof {
        assert(toks.len() == raw.deep_view().len());
    }
    let mut key = String::new();
    let mut shift = false;
    let mut ctrl = false;
    let mut alt = false;
    let mut meta = false;
    let mut func = false;
    let mut modifier_down_only = false;
    let mut j: usize = 0;
    while j < raw.len()
        invariant
            0 <= j <= raw.len(),
            toks == combo_tokens(s@),
            raw.deep_view() == split_char_spec(s@, '+'),
            toks.len() == raw.len(),
            ({
                let acc = key_press_fold(toks.take(j as int));
                &&& key@ == acc.key
                &&& shift == acc.shift
                &&& ctrl == acc.ctrl
                &&& alt == acc.alt
                &&& meta == acc.meta
                &&& func == acc.func
                &&& modifier_down_only == acc.modifier_down_only
            }),
        decreases raw.len() - j,
    {
        let p = str_lower(trim_str(raw[j].as_str()));
        proof {
            assert(raw.deep_view()[j as int] == raw@[j as int]@);
            assert(p@ == toks[j as int]);
        }
        if str_eq(p.as_str(), "shift") {
            shift = true;
        } else if str_eq(p.as_str(), "ctrl") {
            ctrl = true;
        } else if str_eq(p.as_str(), "alt") {
            alt = true;
        } else if str_eq(p.as_str(), "meta") {
            meta = true;
        } else if str_eq(p.as_str(), "metadown") {
            meta = true;
            modifier_down_only = true;
        } else if str_eq(p.as_str(), "fn") {
            func = true;
        } else {
            key = p;
        }
        proof {
            assert(toks.take(j + 1).take(j as int) =~= toks.take(j as int));
            assert(toks.take(j + 1)[j as int] == toks[j as int]);
        }
        j += 1;
    }
    if raw.len() == 1 {
        key = str_lower(trim_str(raw[0].as_str()));
        proof {
            assert(raw.deep_view()[0] == raw@[0]@);
            assert(key@ == toks[0]);
        }
    }
    proof {
        assert(toks.take(toks.len() as int) =~= toks);
    }
    KeyEvent {
        key,
        code: 0,
        state: KeyState::DownUp,
        shift,
        ctrl,
        alt,
        meta,
        func,
        modifier_down_only,
    }
}

/// A compiled action definition: an ordered sequence, a deferred
/// reference to a named macro, a literal key event, or reserved
/// literal text (never resolved to output).
#[derive(Debug, PartialEq, Eq)]
pub enum SemanticAction {
    Sequence(Vec<SemanticAction>),
    Action(String),
    KeyEvent(KeyEvent),
    LiteralString(String),
}

impl SemanticAction {
    /// The mathematical value of this action tree.
    pub open spec fn model(self) -> ActionModel
        decreases self,
    {
        match self {
            SemanticAction::Sequence(items) => ActionModel::Sequence(action_list_model(items@)),
            SemanticAction::Action(name) => ActionModel::Action(name@),
            SemanticAction::KeyEvent(e) => ActionModel::KeyEvent(e.model()),
            SemanticAction::LiteralString(t) => ActionModel::LiteralString(t@),
        }
    }
}

pub open spec fn action_list_model(items: Seq<SemanticAction>) -> Seq<ActionModel>
    decreases items,
{
    if items.len() == 0 {
        Seq::empty()
    } else {
        seq![items[0].model()] + action_list_model(items.skip(1))
    }
}

/// `action_list_model` is the element-wise model of the list.
pub proof fn lemma_action_list_model(items: Seq<SemanticAction>)
    ensures
        action_list_model(items).len() == items.len(),
        forall|i: int| 0 <= i < items.len() ==> action_list_model(items)[i] == items[i].model(),
    decreases items.len(),
{
    if items.len() > 0 {
        lemma_action_list_model(items.skip(1));
        assert(forall|i: int|
            0 <= i < items.skip(1).len() ==> items.skip(1)[i] == items[i + 1]);
    }
}

/// The model of a list of named entries.
pub open spec fn entries_model(s: Seq<(String, SemanticAction)>) -> Seq<(Seq<char>, ActionModel)> {
    s.map_values(|p: (String, SemanticAction)| (p.0@, p.1.model()))
}

/// A named scope of key mappings and macros, selected by matching the
/// foreground application or window name, with an optional fallback
/// to a parent context referenced by name.
#[derive(Debug)]
pub struct Context {
    pub name: String,
    pub aliases: Vec<String>,
    pub parent: Option<String>,
    pub semantic_actions: Vec<(String, SemanticAction)>,
    pub key_mappings: Vec<(String, SemanticAction)>,
}

impl Context {
    /// The mathematical value of this context record.
    pub open spec fn model(self) -> CtxModel {
        CtxModel {
            name: self.name@,
            aliases: self.aliases.deep_view(),
            parent: match self.parent {
                None => None,
                Some(p) => Some(p@),
            },
            semantic_actions: entries_model(self.semantic_actions@),
            key_mappings: entries_model(self.key_mappings@),
        }
    }
}

/// Finds the first entry under the given name.
pub fn entries_lookup<'a>(entries: &'a Vec<(String, SemanticAction)>, key: &str) -> (r: Option<
    &'a SemanticAction,
>)
    ensures
        match r {
            Some(a) => assoc_lookup(entries_model(entries@), key@) == Some(a.model()),
            None => assoc_lookup(entries_model(entries@), key@) is None,
        },
{
    let ghost m = entries_model(entries@);
    proof {
        assert(m.len() == entries@.len());
    }
    let mut i: usize = 0;
    while i < entries.len()
        invariant
            m == entries_model(entries@),
            m.len() == entries@.len(),
            0 <= i <= entries.len(),
            forall|j: int| 0 <= j < i ==> #[trigger] m[j].0 != key@,
        decreases entries.len() - i,
    {
        if str_eq(entries[i].0.as_str(), key) {
            proof {
                assert(m[i as int].0 == key@);
                lemma_assoc_lookup_at(m, key@, i as int);
            }
            return Some(&entries[i].1);
        }
        proof {
            assert(m[i as int].0 == entries@[i as int].0@);
        }
        i += 1;
    }
    proof {
        lemma_assoc_lookup_none(m, key@);
    }
    None
}

/// Stores an entry under the given name, replacing the first entry
/// already so named, as a map insertion does.
pub fn entries_insert(entries: &mut Vec<(String, SemanticAction)>, key: String, value: SemanticAction)
    ensures
        entries_model(final(entries)@) == assoc_insert(
            entries_model(old(entries)@),
            key@,
            value.model(),
        ),
{
    let ghost m = entries_model(old(entries)@);
    let ghost keyv = key@;
    let ghost valm = value.model();
    let mut i: usize = 0;
    while i < entries.len()
        invariant
            entries@ == old(entries)@,
            m == entries_model(entries@),
            m.len() == entries@.len(),
            keyv == key@,
            valm == value.model(),
            0 <= i <= entries.len(),
            forall|j: int| 0 <= j < i ==> #[trigger] m[j].0 != keyv,
        decreases entries.len() - i,
    {
        if str_eq(entries[i].0.as_str(), key.as_str()) {
            proof {
                assert(m[i as int].0 == keyv);
                lemma_assoc_insert_at(m, keyv, valm, i as int);
            }
            entries.remove(i);
            entries.insert(i, (key, value));
            proof {
                assert(entries@ =~= old(entries)@.update(i as int, (key, value)));
                let newm = entries_model(entries@);
                assert forall|j: int| 0 <= j < newm.len() implies newm[j] == m.update(
                    i as int,
                    (keyv, valm),
                )[j] by {
                    assert(newm[j] == (entries@[j].0@, entries@[j].1.model()));
                    if j == i {
                        assert(entries@[j] == (key, value));
                    } else {
                        assert(entries@[j] == old(entries)@[j]);
                        assert(m[j] == (old(entries)@[j].0@, old(entries)@[j].1.model()));
                    }
                }
                assert(entries_model(entries@) =~= m.update(i as int, (keyv, valm)));
            }
            return ;
        }
        proof {
            assert(m[i as int].0 == entries@[i as int].0@);
        }
        i += 1;
    }
    proof {
        lemma_assoc_insert_push(m, keyv, valm);
    }
    entries.push((key, value));
    proof {
        assert(entries_model(entries@) =~= m.push((keyv, valm)));
    }
}

/// The sentinel name that marks a registered chord prefix.
pub open spec fn stem_name() -> Seq<char> {
    "MappingStem"@
}

/// The items one trimmed, lowercased segment of an action definition
/// compiles to, classified by the first matching rule: a quoted
/// string, a modifier-plus-key combination, a keystroke repetition
/// (`count * key`), a bare key name known to the key-code table, or
/// a deferred reference to a named macro.
pub open spec fn segment_items(p: Seq<char>, names: Seq<(Seq<char>, i64)>) -> Seq<ActionModel> {
    if p.len() >= 2 && p[0] == '"' && p[p.len() - 1] == '"' {
        seq![ActionModel::LiteralString(p.subrange(1, p.len() - 1))]
    } else if seq_contains_char(p, '+') {
        seq![ActionModel::KeyEvent(key_press_spec(p))]
    } else if seq_contains_char(p, '*') {
        let i = find_char_spec(p, '*')->Some_0;
        let count = match parse_usize_spec(trim_spec(p.subrange(0, i))) {
            Some(v) => v,
            None => 1,
        };
        Seq::new(
            count as nat,
            |j: int| ActionModel::KeyEvent(key_press_spec(trim_spec(p.skip(i + 1)))),
        )
    } else if assoc_lookup(names, p) is Some {
        seq![ActionModel::KeyEvent(key_press_spec(p))]
    } else {
        seq![ActionModel::Action(p)]
    }
}

/// The concatenated items of all segments.
pub open spec fn compile_items(parts: Seq<Seq<char>>, names: Seq<(Seq<char>, i64)>) -> Seq<
    ActionModel,
>
    decreases parts.len(),
{
    if parts.len() == 0 {
        Seq::empty()
    } else {
        segment_items(parts[0], names) + compile_items(parts.skip(1), names)
    }
}

pub proof fn lemma_compile_items_push(
    parts: Seq<Seq<char>>,
    names: Seq<(Seq<char>, i64)>,
    x: Seq<char>,
)
    ensures
        compile_items(parts.push(x), names) == compile_items(parts, names) + segment_items(
            x,
            names,
        ),
    decreases parts.len(),
{
    if parts.len() == 0 {
        assert(parts.push(x)[0] == x);
        assert(parts.push(x).skip(1) =~= Seq::<Seq<char>>::empty());
        assert(compile_items(Seq::<Seq<char>>::empty(), names) == Seq::<ActionModel>::empty());
        assert(compile_items(parts.push(x), names) =~= compile_items(parts, names)
            + segment_items(x, names));
    } else {
        assert(parts.push(x)[0] == parts[0]);
        assert(parts.push(x).skip(1) =~= parts.skip(1).push(x));
        lemma_compile_items_push(parts.skip(1), names, x);
        assert(compile_items(parts, names) + segment_items(x, names) =~= segment_items(
            parts[0],
            names,
        ) + (compile_items(parts.skip(1), names) + segment_items(x, names)));
    }
}

/// What compiling a textual action definition yields: split on `|`
/// into segments; each trimmed, lowercased segment contributes its
/// items; a single item stands alone, any other number is wrapped in
/// a sequence.
pub open spec fn compile_action_spec(s: Seq<char>, names: Seq<(Seq<char>, i64)>) -> ActionModel {
    let parts = split_char_spec(s, '|').map_values(|p: Seq<char>| lower_of(trim_spec(p)));
    let items = compile_items(parts, names);
    if items.len() == 1 {
        items[0]
    } else {
        ActionModel::Sequence(items)
    }
}

/// Compiles one textual action definition into a semantic action
/// tree.
pub fn parse_semantic_action(input: &str, keycodes: &KeyCodeLookup) -> (r: SemanticAction)
    ensures
        r.model() == compile_action_spec(input@, keycodes.model().names),
{
    let raw = split_char(input, '|');
    let ghost names = keycodes.model().names;
    let ghost parts = split_char_spec(input@, '|').map_values(|p: Seq<char>| lower_of(trim_spec(p)));
    let mut sequence: Vec<SemanticAction> = Vec::new();
    let mut i: usize = 0;
    while i < raw.len()
        invariant
            names == keycodes.model().names,
            raw.deep_view() == split_char_spec(input@, '|'),
            parts == split_char_spec(input@, '|').map_values(
                |p: Seq<char>| lower_of(trim_spec(p)),
            ),
            parts.len() == raw.len(),
            0 <= i <= raw.len(),
            action_list_model(sequence@) == compile_items(parts.take(i as int), names),
        decreases raw.len() - i,
    {
        let p = str_lower(trim_str(raw[i].as_str()));
        proof {
            assert(raw.deep_view()[i as int] == raw@[i as int]@);
            assert(p@ == parts[i as int]);
        }
        let ghost seq_pre = sequence@;
        let n = p.as_str().unicode_len();
        if n >= 2 && p.as_str().get_char(0) == '"' && p.as_str().get_char(n - 1) == '"' {
            let content = p.as_str().substring_char(1, n - 1).to_owned();
            sequence.push(SemanticAction::LiteralString(content));
        } else if contains_char(p.as_str(), '+') {
            sequence.push(SemanticAction::KeyEvent(key_press(p.as_str())));
        } else if contains_char(p.as_str(), '*') {
            proof {
                lemma_find_char_spec(p@, '*');
            }
            match split_once_char(p.as_str(), '*') {
                Some((count_str, key_str)) => {
                    let count = match parse_usize(trim_str(count_str.as_str())) {
                        Some(v) => v,
                        None => 1,
                    };
                    let ghost fi = find_char_spec(p@, '*')->Some_0;
                    let ghost item = ActionModel::KeyEvent(
                        key_press_spec(trim_spec(p@.skip(fi + 1))),
                    );
                    proof {
                        assert(segment_items(p@, names) =~= Seq::new(count as nat, |j: int| item));
                    }
                    let key_t = trim_str(key_str.as_str());
                    let mut c: usize = 0;
                    while c < count
                        invariant
                            0 <= c <= count,
                            key_t@ == trim_spec(p@.skip(fi + 1)),
                            item == ActionModel::KeyEvent(key_press_spec(key_t@)),
                            action_list_model(sequence@) == action_list_model(seq_pre) + Seq::new(
                                c as nat,
                                |j: int| item,
                            ),
                        decreases count - c,
                    {
                        let ghost sprev = sequence@;
                        sequence.push(SemanticAction::KeyEvent(key_press(key_t)));
                        proof {
                            lemma_action_list_model(sprev);
                            lemma_action_list_model(sequence@);
                            assert(action_list_model(sequence@) =~= action_list_model(sprev).push(
                                item,
                            ));
                            assert(action_list_model(sprev).push(item) =~= action_list_model(
                                seq_pre,
                            ) + Seq::new((c + 1) as nat, |j: int| item));
                        }
                        c += 1;
                    }
                    proof {
                        assert(action_list_model(sequence@) == action_list_model(seq_pre)
                            + segment_items(p@, names));
                    }
                },
                None => {
                    proof {
                        assert(false);
                    }
                },
            }
        } else if keycodes.contains_name(p.as_str()) {
            sequence.push(SemanticAction::KeyEvent(key_press(p.as_str())));
        } else {
            sequence.push(SemanticAction::Action(p));
        }
        proof {
            lemma_compile_items_push(parts.take(i as int), names, parts[i as int]);
            assert(parts.take(i + 1) =~= parts.take(i as int).push(parts[i as int]));
            if sequence@.len() == seq_pre.len() + 1 {
                lemma_action_list_model(seq_pre);
                lemma_action_list_model(sequence@);
                assert(action_list_model(sequence@) =~= action_list_model(seq_pre).push(
                    sequence@[seq_pre.len() as int].model(),
                ));
            }
            assert(action_list_model(sequence@) == compile_items(parts.take(i + 1), names));
        }
        i += 1;
    }
    proof {
        assert(parts.take(parts.len() as int) =~= parts);
        lemma_action_list_model(sequence@);
    }
    if sequence.len() == 1 {
        let r = match sequence.pop() {
            Some(a) => a,
            None => vstd::pervasive::unreached(),
        };
        proof {
            assert(r.model() == action_list_model(sequence@.push(r))[0]);
        }
        r
    } else {
        SemanticAction::Sequence(sequence)
    }
}

/// A context as the structured configuration source describes it:
/// its aliases and an optional parent name.
#[derive(Debug)]
pub struct YamlContext {
    pub aliases: Vec<String>,
    pub parent: Option<String>,
}

/// The mathematical value of a configured context entry.
pub ghost struct YamlCtxModel {
    pub aliases: Seq<Seq<char>>,
    pub parent: Option<Seq<char>>,
}

impl YamlContext {
    pub open spec fn model(self) -> YamlCtxModel {
        YamlCtxModel {
            aliases: self.aliases.deep_view(),
            parent: match self.parent {
                None => None,
                Some(p) => Some(p@),
            },
        }
    }
}

/// The models of a table of contexts, in table order.
pub open spec fn contexts_model(v: Seq<Context>) -> Seq<CtxModel> {
    v.map_values(|c: Context| c.model())
}

/// The first context of the given name, if any.
pub open spec fn ctx_lookup(s: Seq<CtxModel>, name: Seq<char>) -> Option<CtxModel>
    decreases s.len(),
{
    if s.len() == 0 {
        None
    } else if s[0].name == name {
        Some(s[0])
    } else {
        ctx_lookup(s.skip(1), name)
    }
}

/// Whether some context bears the given name.
pub open spec fn ctx_exists(s: Seq<CtxModel>, name: Seq<char>) -> bool {
    ctx_lookup(s, name) is Some
}

pub proof fn lemma_ctx_lookup_at(s: Seq<CtxModel>, name: Seq<char>, i: int)
    requires
        0 <= i < s.len(),
        s[i].name == name,
        forall|j: int| 0 <= j < i ==> s[j].name != name,
    ensures
        ctx_lookup(s, name) == Some(s[i]),
    decreases i,
{
    if i > 0 {
        lemma_ctx_lookup_at(s.skip(1), name, i - 1);
        assert(s.skip(1)[i - 1] == s[i]);
        assert(forall|j: int| 0 <= j < i - 1 ==> s.skip(1)[j] == s[j + 1]);
    }
}

pub proof fn lemma_ctx_lookup_none(s: Seq<CtxModel>, name: Seq<char>)
    requires
        forall|j: int| 0 <= j < s.len() ==> s[j].name != name,
    ensures
        ctx_lookup(s, name) is None,
    decreases s.len(),
{
    if s.len() > 0 {
        assert(forall|j: int| 0 <= j < s.skip(1).len() ==> s.skip(1)[j] == s[j + 1]);
        lemma_ctx_lookup_none(s.skip(1), name);
    }
}

/// Two tables whose contexts bear the same names in the same order
/// agree on which names exist.
pub proof fn lemma_ctx_exists_same_names(s1: Seq<CtxModel>, s2: Seq<CtxModel>, name: Seq<char>)
    requires
        s1.len() == s2.len(),
        forall|j: int| 0 <= j < s1.len() ==> s1[j].name == #[trigger] s2[j].name,
    ensures
        ctx_exists(s1, name) == ctx_exists(s2, name),
    decreases s1.len(),
{
    if s1.len() > 0 {
        assert(s1[0].name == s2[0].name);
        if s1[0].name != name {
            assert(forall|j: int| 0 <= j < s1.skip(1).len() ==> s1.skip(1)[j] == s1[j + 1]);
            assert(forall|j: int| 0 <= j < s2.skip(1).len() ==> s2.skip(1)[j] == s2[j + 1]);
            lemma_ctx_exists_same_names(s1.skip(1), s2.skip(1), name);
        }
    }
}

/// Finds the position of the first context of the given name.
pub fn context_index(contexts: &Vec<Context>, name: &str) -> (r: Option<usize>)
    ensures
        match r {
            Some(i) => {
                &&& i < contexts@.len()
                &&& contexts@[i as int].model().name == name@
                &&& ctx_index_spec(contexts_model(contexts@), name@) == Some(i as int)
                &&& ctx_lookup(contexts_model(contexts@), name@) == Some(
                    contexts@[i as int].model(),
                )
            },
            None => ctx_index_spec(contexts_model(contexts@), name@) is None && ctx_lookup(
                contexts_model(contexts@),
                name@,
            ) is None,
        },
{
    let ghost m = contexts_model(contexts@);
    let mut i: usize = 0;
    while i < contexts.len()
        invariant
            m == contexts_model(contexts@),
            m.len() == contexts@.len(),
            0 <= i <= contexts.len(),
            forall|j: int| 0 <= j < i ==> #[trigger] m[j].name != name@,
        decreases contexts.len() - i,
    {
        if str_eq(contexts[i].name.as_str(), name) {
            proof {
                assert(m[i as int].name == name@);
                lemma_ctx_lookup_at(m, name@, i as int);
                lemma_ctx_index_spec(m, name@);
            }
            return Some(i);
        }
        proof {
            assert(m[i as int].name == contexts@[i as int].name@);
        }
        i += 1;
    }
    proof {
        lemma_ctx_lookup_none(m, name@);
        lemma_ctx_index_spec(m, name@);
    }
    None
}

/// Replaces the first context of the same name, or appends at the
/// end, as a map insertion does.
pub open spec fn ctxs_insert(s: Seq<CtxModel>, c: CtxModel) -> Seq<CtxModel>
    decreases s.len(),
{
    if s.len() == 0 {
        seq![c]
    } else if s[0].name == c.name {
        seq![c] + s.skip(1)
    } else {
        seq![s[0]] + ctxs_insert(s.skip(1), c)
    }
}

pub proof fn lemma_ctxs_insert_at(s: Seq<CtxModel>, c: CtxModel, i: int)
    requires
        0 <= i < s.len(),
        s[i].name == c.name,
        forall|j: int| 0 <= j < i ==> s[j].name != c.name,
    ensures
        ctxs_insert(s, c) == s.update(i, c),
    decreases i,
{
    if i == 0 {
        assert(ctxs_insert(s, c) =~= s.update(0, c));
    } else {
        lemma_ctxs_insert_at(s.skip(1), c, i - 1);
        assert(s.skip(1)[i - 1] == s[i]);
        assert(forall|j: int| 0 <= j < i - 1 ==> s.skip(1)[j] == s[j + 1]);
        assert(seq![s[0]] + s.skip(1).update(i - 1, c) =~= s.update(i, c));
    }
}

pub proof fn lemma_ctxs_insert_push(s: Seq<CtxModel>, c: CtxModel)
    requires
        forall|j: int| 0 <= j < s.len() ==> s[j].name != c.name,
    ensures
        ctxs_insert(s, c) == s.push(c),
    decreases s.len(),
{
    if s.len() == 0 {
        assert(ctxs_insert(s, c) =~= s.push(c));
    } else {
        assert(forall|j: int| 0 <= j < s.skip(1).len() ==> s.skip(1)[j] == s[j + 1]);
        lemma_ctxs_insert_push(s.skip(1), c);
        assert(seq![s[0]] + s.skip(1).push(c) =~= s.push(c));
    }
}

/// A context freshly made from a configured entry: its aliases and
/// parent, with no macros or mappings yet.
pub open spec fn fresh_ctx(name: Seq<char>, y: YamlCtxModel) -> CtxModel {
    CtxModel {
        name: name,
        aliases: y.aliases,
        parent: y.parent,
        semantic_actions: Seq::empty(),
        key_mappings: Seq::empty(),
    }
}

/// The models of the configured entries, in entry order.
pub open spec fn yaml_entries_model(s: Seq<(String, YamlContext)>) -> Seq<(Seq<char>, YamlCtxModel)> {
    s.map_values(|p: (String, YamlContext)| (p.0@, p.1.model()))
}

/// The first pass over the entries: each becomes a fresh context,
/// inserted by name.
pub open spec fn build_pass1(entries: Seq<(Seq<char>, YamlCtxModel)>) -> Seq<CtxModel>
    decreases entries.len(),
{
    if entries.len() == 0 {
        Seq::empty()
    } else {
        ctxs_insert(
            build_pass1(entries.take(entries.len() - 1)),
            fresh_ctx(entries[entries.len() - 1].0, entries[entries.len() - 1].1),
        )
    }
}

/// The second pass: a parent name that no context bears is dropped.
pub open spec fn drop_dangling_parents(s: Seq<CtxModel>) -> Seq<CtxModel> {
    Seq::new(
        s.len(),
        |i: int|
            match s[i].parent {
                Some(p) => if ctx_exists(s, p) {
                    s[i]
                } else {
                    CtxModel { parent: None, ..s[i] }
                },
                None => s[i],
            },
    )
}

/// What building the context table from configured entries yields.
pub open spec fn build_contexts_spec(entries: Seq<(Seq<char>, YamlCtxModel)>) -> Seq<CtxModel> {
    drop_dangling_parents(build_pass1(entries))
}

/// Stores a context in the table, replacing the first context of the
/// same name, as a map insertion does.
fn ctx_vec_insert(contexts: &mut Vec<Context>, c: Context)
    ensures
        contexts_model(final(contexts)@) == ctxs_insert(contexts_model(old(contexts)@), c.model()),
{
    let ghost m = contexts_model(contexts@);
    let ghost cm = c.model();
    let mut i: usize = 0;
    while i < contexts.len()
        invariant
            contexts@ == old(contexts)@,
            m == contexts_model(contexts@),
            m.len() == contexts@.len(),
            cm == c.model(),
            0 <= i <= contexts.len(),
            forall|j: int| 0 <= j < i ==> #[trigger] m[j].name != cm.name,
        decreases contexts.len() - i,
    {
        if str_eq(contexts[i].name.as_str(), c.name.as_str()) {
            proof {
                assert(m[i as int].name == cm.name);
                lemma_ctxs_insert_at(m, cm, i as int);
            }
            contexts.remove(i);
            contexts.insert(i, c);
            proof {
                assert(contexts@ =~= old(contexts)@.update(i as int, c));
                let newm = contexts_model(contexts@);
                assert forall|j: int| 0 <= j < newm.len() implies newm[j] == m.update(
                    i as int,
                    cm,
                )[j] by {
                    if j != i {
                        assert(contexts@[j] == old(contexts)@[j]);
                    }
                }
                assert(newm =~= m.update(i as int, cm));
            }
            return ;
        }
        proof {
            assert(m[i as int].name == contexts@[i as int].name@);
        }
        i += 1;
    }
    proof {
        lemma_ctxs_insert_push(m, cm);
    }
    contexts.push(c);
    proof {
        let newm = contexts_model(contexts@);
        assert forall|j: int| 0 <= j < newm.len() implies newm[j] == m.push(cm)[j] by {
            if j < m.len() {
                assert(contexts@[j] == old(contexts)@[j]);
            }
        }
        assert(newm =~= m.push(cm));
    }
}

/// Builds the context table from the configured entries: each entry
/// becomes a context, and a parent name that no context bears is
/// dropped with no further effect.
pub fn build_contexts(entries: Vec<(String, YamlContext)>) -> (r: Vec<Context>)
    ensures
        contexts_model(r@) == build_contexts_spec(yaml_entries_model(entries@)),
{
    let ghost full = yaml_entries_model(entries@);
    let mut rest = entries;
    let n0 = rest.len();
    proof {
        assert(full.len() == n0);
    }
    let mut contexts: Vec<Context> = Vec::new();
    let mut i: usize = 0;
    while rest.len() > 0
        invariant
            full.len() <= usize::MAX,
            full.len() == i + rest@.len(),
            0 <= i <= full.len(),
            forall|j: int|
                0 <= j < rest@.len() ==> #[trigger] yaml_entries_model(rest@)[j] == full[i + j],
            contexts_model(contexts@) == build_pass1(full.take(i as int)),
        decreases rest.len(),
    {
        let ghost pre_rest = rest@;
        let (name, yc) = rest.remove(0);
        let c = Context {
            name: name,
            aliases: yc.aliases,
            parent: yc.parent,
            semantic_actions: Vec::new(),
            key_mappings: Vec::new(),
        };
        proof {
            assert(rest@ =~= pre_rest.skip(1));
            assert(yaml_entries_model(pre_rest)[0] == full[i as int]);
            assert(entries_model(c.semantic_actions@) =~= Seq::<(Seq<char>, ActionModel)>::empty());
            assert(entries_model(c.key_mappings@) =~= Seq::<(Seq<char>, ActionModel)>::empty());
            assert(c.model() == fresh_ctx(full[i as int].0, full[i as int].1));
        }
        ctx_vec_insert(&mut contexts, c);
        proof {
            assert(full.take(i + 1).take(i as int) =~= full.take(i as int));
            assert(full.take(i + 1)[i as int] == full[i as int]);
            assert(contexts_model(contexts@) == build_pass1(full.take(i + 1)));
            assert forall|j: int|
                0 <= j < rest@.len() implies #[trigger] yaml_entries_model(rest@)[j] == full[i + 1
                + j] by {
                assert(rest@[j] == pre_rest[j + 1]);
                assert(yaml_entries_model(pre_rest)[j + 1] == full[i + (j + 1)]);
            }
        }
        i += 1;
    }
    proof {
        assert(full.take(full.len() as int) =~= full);
    }
    let ghost base = contexts_model(contexts@);
    let mut k: usize = 0;
    while k < contexts.len()
        invariant
            base == build_pass1(full),
            contexts@.len() == base.len(),
            0 <= k <= contexts@.len(),
            forall|j: int|
                k <= j < contexts@.len() ==> contexts_model(contexts@)[j] == #[trigger] base[j],
            forall|j: int|
                0 <= j < k ==> contexts_model(contexts@)[j] == #[trigger] drop_dangling_parents(
                    base,
                )[j],
        decreases contexts.len() - k,
    {
        let parent_name: Option<String> = match &contexts[k].parent {
            Some(p) => Some(p.clone()),
            None => None,
        };
        let ghost pre = contexts@;
        if let Some(p) = parent_name {
            match context_index(&contexts, p.as_str()) {
                Some(_) => {
                    proof {
                        lemma_names_preserved(base, contexts_model(contexts@), k as int);
                        lemma_ctx_exists_same_names(contexts_model(contexts@), base, p@);
                    }
                },
                None => {
                    proof {
                        lemma_names_preserved(base, contexts_model(contexts@), k as int);
                        lemma_ctx_exists_same_names(contexts_model(contexts@), base, p@);
                    }
                    contexts[k].parent = None;
                    proof {
                        assert(contexts@ =~= pre.update(k as int, contexts@[k as int]));
                        assert forall|j: int|
                            0 <= j < contexts@.len() && j != k implies contexts_model(contexts@)[j]
                            == contexts_model(pre)[j] by {
                            assert(contexts@[j] == pre[j]);
                        }
                    }
                },
            }
        }
        k += 1;
    }
    proof {
        assert(contexts_model(contexts@) =~= drop_dangling_parents(base));
    }
    contexts
}

/// In the second pass only parent fields change: every name, alias,
/// macro and mapping stays.
proof fn lemma_names_preserved(base: Seq<CtxModel>, cur: Seq<CtxModel>, k: int)
    requires
        base.len() == cur.len(),
        0 <= k <= cur.len(),
        forall|j: int| k <= j < cur.len() ==> cur[j] == #[trigger] base[j],
        forall|j: int| 0 <= j < k ==> cur[j] == #[trigger] drop_dangling_parents(base)[j],
    ensures
        forall|j: int| 0 <= j < cur.len() ==> cur[j].name == #[trigger] base[j].name,
{
    assert forall|j: int| 0 <= j < cur.len() implies cur[j].name == #[trigger] base[j].name by {
        if j < k {
            assert(cur[j] == drop_dangling_parents(base)[j]);
        }
    }
}

/// The position of the first context of the given name, if any.
pub open spec fn ctx_index_spec(s: Seq<CtxModel>, name: Seq<char>) -> Option<int>
    decreases s.len(),
{
    if s.len() == 0 {
        None
    } else if s[0].name == name {
        Some(0)
    } else {
        match ctx_index_spec(s.skip(1), name) {
            None => None,
            Some(i) => Some(i + 1),
        }
    }
}

/// What `ctx_index_spec` returns: the least index bearing the name,
/// or nothing; and `ctx_lookup` finds the context at that index.
pub proof fn lemma_ctx_index_spec(s: Seq<CtxModel>, name: Seq<char>)
    ensures
        match ctx_index_spec(s, name) {
            None => (forall|j: int| 0 <= j < s.len() ==> s[j].name != name) && ctx_lookup(s, name)
                is None,
            Some(i) => 0 <= i < s.len() && s[i].name == name && (forall|j: int|
                0 <= j < i ==> s[j].name != name) && ctx_lookup(s, name) == Some(s[i]),
        },
    decreases s.len(),
{
    if s.len() > 0 && s[0].name != name {
        lemma_ctx_index_spec(s.skip(1), name);
        assert(forall|j: int| 0 <= j < s.skip(1).len() ==> s.skip(1)[j] == s[j + 1]);
        match ctx_index_spec(s.skip(1), name) {
            None => {
                assert forall|j: int| 0 <= j < s.len() implies s[j].name != name by {
                    if j > 0 {
                        assert(s.skip(1)[j - 1] == s[j]);
                    }
                }
            },
            Some(i) => {
                assert(s.skip(1)[i] == s[i + 1]);
                assert forall|j: int| 0 <= j < i + 1 implies s[j].name != name by {
                    if j > 0 {
                        assert(s.skip(1)[j - 1] == s[j]);
                    }
                }
            },
        }
    }
}

/// Stores a named macro in the context at the given position,
/// replacing the first entry of the same name.
pub fn insert_action_entry(contexts: &mut Vec<Context>, ci: usize, key: String, value: SemanticAction)
    requires
        ci < old(contexts)@.len(),
    ensures
        contexts_model(final(contexts)@) == contexts_model(old(contexts)@).update(
            ci as int,
            CtxModel {
                semantic_actions: assoc_insert(
                    contexts_model(old(contexts)@)[ci as int].semantic_actions,
                    key@,
                    value.model(),
                ),
                ..contexts_model(old(contexts)@)[ci as int]
            },
        ),
{
    let ghost m = contexts_model(contexts@);
    entries_insert(&mut contexts[ci].semantic_actions, key, value);
    proof {
        let newm = contexts_model(contexts@);
        assert forall|j: int| 0 <= j < newm.len() implies newm[j] == m.update(
            ci as int,
            CtxModel { semantic_actions: newm[ci as int].semantic_actions, ..m[ci as int] },
        )[j] by {
            if j != ci {
                assert(contexts@[j] == old(contexts)@[j]);
            } else {
                assert(contexts@[j] == old(contexts)@.update(ci as int, contexts@[ci as int])[j]);
            }
        }
        assert(newm =~= m.update(
            ci as int,
            CtxModel { semantic_actions: newm[ci as int].semantic_actions, ..m[ci as int] },
        ));
    }
}

/// Stores a chord binding in the context at the given position,
/// replacing the first entry of the same signature.
pub fn insert_mapping_entry(contexts: &mut Vec<Context>, ci: usize, key: String, value: SemanticAction)
    requires
        ci < old(contexts)@.len(),
    ensures
        contexts_model(final(contexts)@) == contexts_model(old(contexts)@).update(
            ci as int,
            CtxModel {
                key_mappings: assoc_insert(
                    contexts_model(old(contexts)@)[ci as int].key_mappings,
                    key@,
                    value.model(),
                ),
                ..contexts_model(old(contexts)@)[ci as int]
            },
        ),
{
    let ghost m = contexts_model(contexts@);
    entries_insert(&mut contexts[ci].key_mappings, key, value);
    proof {
        let newm = contexts_model(contexts@);
        assert forall|j: int| 0 <= j < newm.len() implies newm[j] == m.update(
            ci as int,
            CtxModel { key_mappings: newm[ci as int].key_mappings, ..m[ci as int] },
        )[j] by {
            if j != ci {
                assert(contexts@[j] == old(contexts)@[j]);
            } else {
                assert(contexts@[j] == old(contexts)@.update(ci as int, contexts@[ci as int])[j]);
            }
        }
        assert(newm =~= m.update(
            ci as int,
            CtxModel { key_mappings: newm[ci as int].key_mappings, ..m[ci as int] },
        ));
    }
}

} // verus!


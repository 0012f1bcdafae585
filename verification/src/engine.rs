//! The stateful remap engine: it consumes one key event at a time,
//! matches the currently pressed keys against the active context's
//! chords, and produces a suppression decision and synthetic output.

use vstd::prelude::*;
use std::collections::VecDeque;

use crate::contexts::{action_list_model, build_contexts_spec, contexts_model, ctx_lookup,
    lemma_action_list_model, stem_name, yaml_entries_model, Context, KeyEvent, KeyState,
    SemanticAction, YamlContext,
};
use crate::mappings::parse_mappings_spec;
use crate::semantics::parse_semantics_spec;
use crate::keycode_macos::{create_keycode_map, keycode_map_model, KeycodesModel, KeyCodeLookup};
use crate::model::{assoc_lookup, ActionModel, CtxModel, EventModel};
use crate::strutil::{contains_substr, join_sep_spec, join_with, lower_of, seq_contains_sub,
    str_eq, str_lower,
};

verus! {

/// The models of a list of key events, in order.
pub open spec fn events_model(s: Seq<KeyEvent>) -> Seq<EventModel> {
    s.map_values(|e: KeyEvent| e.model())
}

/// The mathematical value of the engine's whole state.
pub ghost struct EngineModel {
    pub ctxs: Seq<CtxModel>,
    pub pressed: Seq<EventModel>,
    pub no_mapping: bool,
    pub only_mappings: bool,
    pub synthetic: Seq<EventModel>,
    pub keycodes: KeycodesModel,
}

/// The stateful core: the context model, the queue of currently
/// pressed keys, the two session flags, and the buffer of synthetic
/// events awaiting the platform adapter.
pub struct PinkyTwirlEngine {
    pub contexts: Vec<Context>,
    pub pressed_keys: VecDeque<KeyEvent>,
    pub keycodes: KeyCodeLookup,
    pub no_mapping_until_reset: bool,
    pub only_mappings_until_reset: bool,
    pub synthetic_keys: Vec<KeyEvent>,
}

impl PinkyTwirlEngine {
    /// The mathematical value of the engine's state.
    pub open spec fn model(self) -> EngineModel {
        EngineModel {
            ctxs: contexts_model(self.contexts@),
            pressed: events_model(self.pressed_keys@),
            no_mapping: self.no_mapping_until_reset,
            only_mappings: self.only_mappings_until_reset,
            synthetic: events_model(self.synthetic_keys@),
            keycodes: self.keycodes.model(),
        }
    }
}

/// Some alias of the context equals the name exactly.
pub open spec fn alias_exact(c: CtxModel, name: Seq<char>) -> bool {
    exists|i: int| 0 <= i < c.aliases.len() && #[trigger] c.aliases[i] == name
}

/// Some alias of the context equals the name up to case.
pub open spec fn alias_ci(c: CtxModel, name: Seq<char>) -> bool {
    exists|i: int|
        0 <= i < c.aliases.len() && lower_of(#[trigger] c.aliases[i]) == lower_of(name)
}

/// Some alias of the context contains the name, or is contained in
/// it, up to case.
pub open spec fn alias_sub(c: CtxModel, name: Seq<char>) -> bool {
    exists|i: int|
        0 <= i < c.aliases.len() && (seq_contains_sub(
            lower_of(#[trigger] c.aliases[i]),
            lower_of(name),
        ) || seq_contains_sub(lower_of(name), lower_of(c.aliases[i])))
}

/// The first context with an alias equal to the name.
pub open spec fn first_exact(s: Seq<CtxModel>, name: Seq<char>) -> Option<CtxModel>
    decreases s.len(),
{
    if s.len() == 0 {
        None
    } else if alias_exact(s[0], name) {
        Some(s[0])
    } else {
        first_exact(s.skip(1), name)
    }
}

/// The first context with an alias equal to the name up to case.
pub open spec fn first_ci(s: Seq<CtxModel>, name: Seq<char>) -> Option<CtxModel>
    decreases s.len(),
{
    if s.len() == 0 {
        None
    } else if alias_ci(s[0], name) {
        Some(s[0])
    } else {
        first_ci(s.skip(1), name)
    }
}

/// The first context with an alias matching the name by substring,
/// in either direction, up to case.
pub open spec fn first_sub(s: Seq<CtxModel>, name: Seq<char>) -> Option<CtxModel>
    decreases s.len(),
{
    if s.len() == 0 {
        None
    } else if alias_sub(s[0], name) {
        Some(s[0])
    } else {
        first_sub(s.skip(1), name)
    }
}

pub proof fn lemma_first_exact(s: Seq<CtxModel>, name: Seq<char>, i: int)
    requires
        0 <= i < s.len(),
        alias_exact(s[i], name),
        forall|j: int| 0 <= j < i ==> !alias_exact(#[trigger] s[j], name),
    ensures
        first_exact(s, name) == Some(s[i]),
    decreases i,
{
    if i > 0 {
        assert(forall|j: int| 0 <= j < i - 1 ==> s.skip(1)[j] == s[j + 1]);
        assert(s.skip(1)[i - 1] == s[i]);
        lemma_first_exact(s.skip(1), name, i - 1);
    }
}

pub proof fn lemma_first_exact_none(s: Seq<CtxModel>, name: Seq<char>)
    requires
        forall|j: int| 0 <= j < s.len() ==> !alias_exact(#[trigger] s[j], name),
    ensures
        first_exact(s, name) is None,
    decreases s.len(),
{
    if s.len() > 0 {
        assert(forall|j: int| 0 <= j < s.skip(1).len() ==> s.skip(1)[j] == s[j + 1]);
        lemma_first_exact_none(s.skip(1), name);
    }
}

pub proof fn lemma_first_ci(s: Seq<CtxModel>, name: Seq<char>, i: int)
    requires
        0 <= i < s.len(),
        alias_ci(s[i], name),
        forall|j: int| 0 <= j < i ==> !alias_ci(#[trigger] s[j], name),
    ensures
        first_ci(s, name) == Some(s[i]),
    decreases i,
{
    if i > 0 {
        assert(forall|j: int| 0 <= j < i - 1 ==> s.skip(1)[j] == s[j + 1]);
        assert(s.skip(1)[i - 1] == s[i]);
        lemma_first_ci(s.skip(1), name, i - 1);
    }
}

pub proof fn lemma_first_ci_none(s: Seq<CtxModel>, name: Seq<char>)
    requires
        forall|j: int| 0 <= j < s.len() ==> !alias_ci(#[trigger] s[j], name),
    ensures
        first_ci(s, name) is None,
    decreases s.len(),
{
    if s.len() > 0 {
        assert(forall|j: int| 0 <= j < s.skip(1).len() ==> s.skip(1)[j] == s[j + 1]);
        lemma_first_ci_none(s.skip(1), name);
    }
}

pub proof fn lemma_first_sub(s: Seq<CtxModel>, name: Seq<char>, i: int)
    requires
        0 <= i < s.len(),
        alias_sub(s[i], name),
        forall|j: int| 0 <= j < i ==> !alias_sub(#[trigger] s[j], name),
    ensures
        first_sub(s, name) == Some(s[i]),
    decreases i,
{
    if i > 0 {
        assert(forall|j: int| 0 <= j < i - 1 ==> s.skip(1)[j] == s[j + 1]);
        assert(s.skip(1)[i - 1] == s[i]);
        lemma_first_sub(s.skip(1), name, i - 1);
    }
}

pub proof fn lemma_first_sub_none(s: Seq<CtxModel>, name: Seq<char>)
    requires
        forall|j: int| 0 <= j < s.len() ==> !alias_sub(#[trigger] s[j], name),
    ensures
        first_sub(s, name) is None,
    decreases s.len(),
{
    if s.len() > 0 {
        assert(forall|j: int| 0 <= j < s.skip(1).len() ==> s.skip(1)[j] == s[j + 1]);
        lemma_first_sub_none(s.skip(1), name);
    }
}

/// Which context handles a given foreground application and window,
/// in strict priority order: exact alias match on the application
/// name, then on the window name; case-insensitive match on each;
/// substring match (either direction, case-insensitive) on each; a
/// context named `Default`, then one named `default`; finally a
/// substring match of any alias against the word `default`.
pub open spec fn match_context_spec(s: Seq<CtxModel>, app: Seq<char>, win: Seq<char>) -> Option<
    CtxModel,
> {
    if first_exact(s, app) is Some {
        first_exact(s, app)
    } else if first_exact(s, win) is Some {
        first_exact(s, win)
    } else if first_ci(s, app) is Some {
        first_ci(s, app)
    } else if first_ci(s, win) is Some {
        first_ci(s, win)
    } else if first_sub(s, app) is Some {
        first_sub(s, app)
    } else if first_sub(s, win) is Some {
        first_sub(s, win)
    } else if ctx_lookup(s, "Default"@) is Some {
        ctx_lookup(s, "Default"@)
    } else if ctx_lookup(s, "default"@) is Some {
        ctx_lookup(s, "default"@)
    } else {
        first_sub(s, "default"@)
    }
}

/// True when some alias of the context equals the name exactly.
fn has_alias_exact(c: &Context, name: &str) -> (r: bool)
    ensures
        r == alias_exact(c.model(), name@),
{
    let ghost als = c.model().aliases;
    let mut i: usize = 0;
    while i < c.aliases.len()
        invariant
            als == c.model().aliases,
            als.len() == c.aliases@.len(),
            0 <= i <= c.aliases.len(),
            forall|j: int| 0 <= j < i ==> #[trigger] als[j] != name@,
        decreases c.aliases.len() - i,
    {
        if str_eq(c.aliases[i].as_str(), name) {
            proof {
                assert(als[i as int] == name@);
            }
            return true;
        }
        proof {
            assert(als[i as int] == c.aliases@[i as int]@);
        }
        i += 1;
    }
    false
}

/// True when some alias of the context equals, up to case, the name
/// whose lowercase form is given.
fn has_alias_ci(c: &Context, lowered: &str) -> (r: bool)
    ensures
        r == exists|i: int|
            0 <= i < c.model().aliases.len() && lower_of(#[trigger] c.model().aliases[i])
                == lowered@,
{
    let ghost als = c.model().aliases;
    let mut i: usize = 0;
    while i < c.aliases.len()
        invariant
            als == c.model().aliases,
            als.len() == c.aliases@.len(),
            0 <= i <= c.aliases.len(),
            forall|j: int| 0 <= j < i ==> lower_of(#[trigger] als[j]) != lowered@,
        decreases c.aliases.len() - i,
    {
        let la = str_lower(c.aliases[i].as_str());
        proof {
            assert(als[i as int] == c.aliases@[i as int]@);
        }
        if str_eq(la.as_str(), lowered) {
            return true;
        }
        i += 1;
    }
    false
}

/// True when some alias of the context matches, by substring in
/// either direction and up to case, the name whose lowercase form is
/// given.
fn has_alias_sub(c: &Context, lowered: &str) -> (r: bool)
    ensures
        r == exists|i: int|
            0 <= i < c.model().aliases.len() && (seq_contains_sub(
                lower_of(#[trigger] c.model().aliases[i]),
                lowered@,
            ) || seq_contains_sub(lowered@, lower_of(c.model().aliases[i]))),
{
    let ghost als = c.model().aliases;
    let mut i: usize = 0;
    while i < c.aliases.len()
        invariant
            als == c.model().aliases,
            als.len() == c.aliases@.len(),
            0 <= i <= c.aliases.len(),
            forall|j: int|
                0 <= j < i ==> !(seq_contains_sub(lower_of(#[trigger] als[j]), lowered@)
                    || seq_contains_sub(lowered@, lower_of(als[j]))),
        decreases c.aliases.len() - i,
    {
        let la = str_lower(c.aliases[i].as_str());
        proof {
            assert(als[i as int] == c.aliases@[i as int]@);
        }
        if contains_substr(la.as_str(), lowered) || contains_substr(lowered, la.as_str()) {
            return true;
        }
        i += 1;
    }
    false
}

/// Finds the first context with an exact alias match.
fn find_first_exact(contexts: &Vec<Context>, name: &str) -> (r: Option<usize>)
    ensures
        match r {
            Some(i) => i < contexts@.len() && first_exact(contexts_model(contexts@), name@)
                == Some(contexts@[i as int].model()),
            None => first_exact(contexts_model(contexts@), name@) is None,
        },
{
    let ghost m = contexts_model(contexts@);
    let mut i: usize = 0;
    while i < contexts.len()
        invariant
            m == contexts_model(contexts@),
            m.len() == contexts@.len(),
            0 <= i <= contexts.len(),
            forall|j: int| 0 <= j < i ==> !alias_exact(#[trigger] m[j], name@),
        decreases contexts.len() - i,
    {
        if has_alias_exact(&contexts[i], name) {
            proof {
                lemma_first_exact(m, name@, i as int);
            }
            return Some(i);
        }
        i += 1;
    }
    proof {
        lemma_first_exact_none(m, name@);
    }
    None
}

/// Finds the first context with a case-insensitive alias match.
fn find_first_ci(contexts: &Vec<Context>, name: &str) -> (r: Option<usize>)
    ensures
        match r {
            Some(i) => i < contexts@.len() && first_ci(contexts_model(contexts@), name@) == Some(
                contexts@[i as int].model(),
            ),
            None => first_ci(contexts_model(contexts@), name@) is None,
        },
{
    let lowered = str_lower(name);
    let ghost m = contexts_model(contexts@);
    let mut i: usize = 0;
    while i < contexts.len()
        invariant
            lowered@ == lower_of(name@),
            m == contexts_model(contexts@),
            m.len() == contexts@.len(),
            0 <= i <= contexts.len(),
            forall|j: int| 0 <= j < i ==> !alias_ci(#[trigger] m[j], name@),
        decreases contexts.len() - i,
    {
        if has_alias_ci(&contexts[i], lowered.as_str()) {
            proof {
                assert(alias_ci(m[i as int], name@));
                lemma_first_ci(m, name@, i as int);
            }
            return Some(i);
        }
        proof {
            assert(!alias_ci(m[i as int], name@));
        }
        i += 1;
    }
    proof {
        lemma_first_ci_none(m, name@);
    }
    None
}

/// Finds the first context with a substring alias match.
fn find_first_sub(contexts: &Vec<Context>, name: &str) -> (r: Option<usize>)
    ensures
        match r {
            Some(i) => i < contexts@.len() && first_sub(contexts_model(contexts@), name@) == Some(
                contexts@[i as int].model(),
            ),
            None => first_sub(contexts_model(contexts@), name@) is None,
        },
{
    let lowered = str_lower(name);
    let ghost m = contexts_model(contexts@);
    let mut i: usize = 0;
    while i < contexts.len()
        invariant
            lowered@ == lower_of(name@),
            m == contexts_model(contexts@),
            m.len() == contexts@.len(),
            0 <= i <= contexts.len(),
            forall|j: int| 0 <= j < i ==> !alias_sub(#[trigger] m[j], name@),
        decreases contexts.len() - i,
    {
        if has_alias_sub(&contexts[i], lowered.as_str()) {
            proof {
                assert(alias_sub(m[i as int], name@));
                lemma_first_sub(m, name@, i as int);
            }
            return Some(i);
        }
        proof {
            assert(!alias_sub(m[i as int], name@));
        }
        i += 1;
    }
    proof {
        lemma_first_sub_none(m, name@);
    }
    None
}

impl PinkyTwirlEngine {
    /// Resolves the active context for the given foreground
    /// application and window, by the priority order of
    /// `match_context_spec`.
    pub fn get_context(&self, app_name: &str, window_name: &str) -> (r: Option<&Context>)
        ensures
            match r {
                Some(c) => match_context_spec(self.model().ctxs, app_name@, window_name@) == Some(
                    c.model(),
                ),
                None => match_context_spec(self.model().ctxs, app_name@, window_name@) is None,
            },
    {
        match self.get_context_idx(app_name, window_name) {
            Some(i) => Some(&self.contexts[i]),
            None => None,
        }
    }
}

/// The chord signature of the pressed keys: their names joined with
/// `" + "` in press order.
pub open spec fn sig_of(pressed: Seq<EventModel>) -> Seq<char> {
    join_sep_spec(pressed.map_values(|e: EventModel| e.key), " + "@)
}

/// Builds the chord signature string of a key queue.
fn build_signature(q: &VecDeque<KeyEvent>) -> (r: String)
    ensures
        r@ == sig_of(events_model(q@)),
{
    let mut names: Vec<String> = Vec::new();
    let mut i: usize = 0;
    while i < q.len()
        invariant
            0 <= i <= q@.len(),
            names@.len() == i,
            forall|j: int| 0 <= j < i ==> (#[trigger] names@[j])@ == q@[j].key@,
        decreases q@.len() - i,
    {
        names.push(q[i].key.clone());
        i += 1;
    }
    let r = join_with(&names, " + ");
    proof {
        let keys = events_model(q@).map_values(|e: EventModel| e.key);
        assert forall|j: int| 0 <= j < names@.len() implies names.deep_view()[j] == keys[j] by {
            assert(names.deep_view()[j] == names@[j]@);
            assert(events_model(q@)[j] == q@[j].model());
        }
        assert(names.deep_view() =~= keys);
    }
    r
}

/// The action bound to the signature in the given context, or in the
/// nearest ancestor along parent names that binds it, walking at
/// most `fuel` contexts.
pub open spec fn find_chord_spec(
    ctxs: Seq<CtxModel>,
    c: CtxModel,
    sig: Seq<char>,
    fuel: nat,
) -> Option<ActionModel>
    decreases fuel,
{
    if fuel == 0 {
        None
    } else {
        match assoc_lookup(c.key_mappings, sig) {
            Some(a) => Some(a),
            None => match c.parent {
                None => None,
                Some(p) => match ctx_lookup(ctxs, p) {
                    None => None,
                    Some(pc) => find_chord_spec(ctxs, pc, sig, (fuel - 1) as nat),
                },
            },
        }
    }
}

impl PinkyTwirlEngine {
    /// Looks the signature up in the context's chord bindings,
    /// walking parent links while the chord stays unbound; the walk
    /// stops after as many steps as there are contexts, which covers
    /// every acyclic parent chain and bounds a cyclic one.
    fn find_chord_in<'a>(&'a self, c: &'a Context, sig: &str, fuel: usize) -> (r: Option<
        &'a SemanticAction,
    >)
        ensures
            match r {
                Some(a) => find_chord_spec(self.model().ctxs, c.model(), sig@, fuel as nat)
                    == Some(a.model()),
                None => find_chord_spec(self.model().ctxs, c.model(), sig@, fuel as nat) is None,
            },
        decreases fuel,
    {
        if fuel == 0 {
            return None;
        }
        match crate::contexts::entries_lookup(&c.key_mappings, sig) {
            Some(a) => Some(a),
            None => match &c.parent {
                None => None,
                Some(p) => match crate::contexts::context_index(&self.contexts, p.as_str()) {
                    None => None,
                    Some(i) => self.find_chord_in(&self.contexts[i], sig, fuel - 1),
                },
            },
        }
    }
}

/// Saturating addition, used for the resolution fuel so that the
/// bound is total.
pub open spec fn sat_add_usize(a: usize, b: usize) -> usize {
    if a + b > usize::MAX {
        usize::MAX
    } else {
        (a + b) as usize
    }
}

fn sat_add(a: usize, b: usize) -> (r: usize)
    ensures
        r == sat_add_usize(a, b),
{
    if a <= usize::MAX - b {
        a + b
    } else {
        usize::MAX
    }
}

pub open spec fn clamp_usize(n: nat) -> usize {
    if n > usize::MAX {
        usize::MAX
    } else {
        n as usize
    }
}

/// The total number of named macros over all contexts (saturating).
pub open spec fn actions_count_spec(ctxs: Seq<CtxModel>) -> usize
    decreases ctxs.len(),
{
    if ctxs.len() == 0 {
        0
    } else {
        sat_add_usize(
            actions_count_spec(ctxs.drop_last()),
            clamp_usize(ctxs.last().semantic_actions.len()),
        )
    }
}

/// How many macro-reference steps resolution will follow before it
/// gives up: one per named macro plus one per context, so that every
/// reference chain without a cycle resolves in full, while a cyclic
/// chain ends in an empty resolution instead of running forever.
pub open spec fn resolve_fuel(ctxs: Seq<CtxModel>) -> nat {
    sat_add_usize(sat_add_usize(actions_count_spec(ctxs), clamp_usize(ctxs.len())), 1) as nat
}

/// What resolving an action against a context yields: sequences
/// concatenate their parts in order; a macro reference is looked up
/// in the context's named actions and resolved against the same
/// context, or retried against the parent context when absent; a
/// literal key event yields itself; reserved literal text yields
/// nothing. Each reference or parent step consumes one unit of fuel,
/// and an exhausted budget yields nothing.
pub open spec fn resolve_spec(
    ctxs: Seq<CtxModel>,
    c: CtxModel,
    a: ActionModel,
    fuel: nat,
) -> Seq<EventModel>
    decreases fuel, a,
{
    match a {
        ActionModel::Sequence(items) => resolve_list_spec(ctxs, c, items, fuel),
        ActionModel::Action(name) => if fuel == 0 {
            Seq::empty()
        } else {
            match assoc_lookup(c.semantic_actions, name) {
                Some(a2) => resolve_spec(ctxs, c, a2, (fuel - 1) as nat),
                None => match c.parent {
                    None => Seq::empty(),
                    Some(p) => match ctx_lookup(ctxs, p) {
                        None => Seq::empty(),
                        Some(pc) => resolve_spec(ctxs, pc, a, (fuel - 1) as nat),
                    },
                },
            }
        },
        ActionModel::KeyEvent(e) => seq![e],
        ActionModel::LiteralString(t) => Seq::empty(),
    }
}

pub open spec fn resolve_list_spec(
    ctxs: Seq<CtxModel>,
    c: CtxModel,
    items: Seq<ActionModel>,
    fuel: nat,
) -> Seq<EventModel>
    decreases fuel, items,
{
    if items.len() == 0 {
        Seq::empty()
    } else {
        resolve_list_spec(ctxs, c, items.drop_last(), fuel) + resolve_spec(
            ctxs,
            c,
            items.last(),
            fuel,
        )
    }
}

impl PinkyTwirlEngine {
    /// The resolution fuel for this engine's context model.
    fn compute_resolve_fuel(&self) -> (r: usize)
        ensures
            r as nat == resolve_fuel(self.model().ctxs),
    {
        let ghost m = self.model().ctxs;
        let mut acc: usize = 0;
        let mut i: usize = 0;
        while i < self.contexts.len()
            invariant
                m == self.model().ctxs,
                m.len() == self.contexts@.len(),
                0 <= i <= self.contexts@.len(),
                acc == actions_count_spec(m.take(i as int)),
            decreases self.contexts@.len() - i,
        {
            acc = sat_add(acc, self.contexts[i].semantic_actions.len());
            proof {
                assert(m.take(i + 1).drop_last() =~= m.take(i as int));
                assert(m.take(i + 1).last() == m[i as int]);
                assert(m[i as int].semantic_actions.len()
                    == self.contexts@[i as int].semantic_actions@.len());
            }
            i += 1;
        }
        proof {
            assert(m.take(m.len() as int) =~= m);
        }
        let acc = sat_add(acc, self.contexts.len());
        sat_add(acc, 1)
    }

    fn resolve_in<'a>(&'a self, action: &'a SemanticAction, c: &'a Context, fuel: usize) -> (r:
        Vec<KeyEvent>)
        ensures
            events_model(r@) == resolve_spec(
                self.model().ctxs,
                c.model(),
                action.model(),
                fuel as nat,
            ),
        decreases fuel, *action,
    {
        match action {
            SemanticAction::Sequence(items) => {
                let ghost ims = action_list_model(items@);
                let mut out: Vec<KeyEvent> = Vec::new();
                let mut j: usize = 0;
                proof {
                    lemma_action_list_model(items@);
                }
                while j < items.len()
                    invariant
                        *action == SemanticAction::Sequence(*items),
                        ims == action_list_model(items@),
                        ims.len() == items@.len(),
                        forall|k: int| 0 <= k < items@.len() ==> ims[k] == items@[k].model(),
                        0 <= j <= items@.len(),
                        events_model(out@) == resolve_list_spec(
                            self.model().ctxs,
                            c.model(),
                            ims.take(j as int),
                            fuel as nat,
                        ),
                    decreases items@.len() - j,
                {
                    let ghost pre = out@;
                    proof {
                        assert(decreases_to!(*action => action->Sequence_0));
                        assert(action->Sequence_0 == *items);
                        assert(decreases_to!(*items => items@));
                        assert(decreases_to!(items@ => items@[j as int]));
                        assert(decreases_to!(*action => items@[j as int]));
                    }
                    let mut part = self.resolve_in(&items[j], c, fuel);
                    let ghost partv = part@;
                    out.append(&mut part);
                    proof {
                        assert(out@ =~= pre + partv);
                        assert(ims.take(j + 1).drop_last() =~= ims.take(j as int));
                        assert(ims.take(j + 1).last() == ims[j as int]);
                        assert forall|k: int| 0 <= k < out@.len() implies events_model(out@)[k]
                            == (events_model(pre) + events_model(partv))[k] by {
                            assert(events_model(out@)[k] == out@[k].model());
                            if k < pre.len() {
                                assert(events_model(pre)[k] == pre[k].model());
                            } else {
                                assert(events_model(partv)[k - pre.len()] == partv[k
                                    - pre.len()].model());
                            }
                        }
                        assert(events_model(out@) =~= events_model(pre) + events_model(partv));
                    }
                    j += 1;
                }
                proof {
                    assert(ims.take(ims.len() as int) =~= ims);
                }
                out
            },
            SemanticAction::Action(name) => {
                if fuel == 0 {
                    Vec::new()
                } else {
                    match crate::contexts::entries_lookup(&c.semantic_actions, name.as_str()) {
                        Some(a2) => self.resolve_in(a2, c, fuel - 1),
                        None => match &c.parent {
                            None => Vec::new(),
                            Some(p) => match crate::contexts::context_index(
                                &self.contexts,
                                p.as_str(),
                            ) {
                                None => Vec::new(),
                                Some(i) => self.resolve_in(action, &self.contexts[i], fuel - 1),
                            },
                        },
                    }
                }
            },
            SemanticAction::KeyEvent(e) => {
                let mut v: Vec<KeyEvent> = Vec::new();
                v.push(e.duplicate());
                proof {
                    assert(events_model(v@) =~= seq![e.model()]);
                }
                v
            },
            SemanticAction::LiteralString(_) => {
                let v: Vec<KeyEvent> = Vec::new();
                proof {
                    assert(events_model(v@) =~= Seq::<EventModel>::empty());
                }
                v
            },
        }
    }

    /// Resolves a semantic action against a context into the flat
    /// ordered list of literal key events it stands for.
    pub fn resolve_semantic_action(&self, action: &SemanticAction, context: &Context) -> (r: Vec<
        KeyEvent,
    >)
        ensures
            events_model(r@) == resolve_spec(
                self.model().ctxs,
                context.model(),
                action.model(),
                resolve_fuel(self.model().ctxs),
            ),
    {
        let fuel = self.compute_resolve_fuel();
        self.resolve_in(action, context, fuel)
    }
}

/// The pressed-key queue with every entry of the given name removed.
pub open spec fn drop_key(pressed: Seq<EventModel>, key: Seq<char>) -> Seq<EventModel>
    decreases pressed.len(),
{
    if pressed.len() == 0 {
        Seq::empty()
    } else {
        let rest = drop_key(pressed.drop_last(), key);
        if pressed.last().key != key {
            rest.push(pressed.last())
        } else {
            rest
        }
    }
}

/// Whether a key of the given name is already held down.
pub open spec fn has_down_key(pressed: Seq<EventModel>, key: Seq<char>) -> bool {
    exists|j: int|
        0 <= j < pressed.len() && (#[trigger] pressed[j]).key == key && pressed[j].state
            == KeyState::Down
}

/// The chord-prefix sentinel as an action value.
pub open spec fn stem_action() -> ActionModel {
    ActionModel::Action(stem_name())
}

/// The outcome of handling one key event: the new pressed-key queue
/// and session flags, the suppression decision, and the synthetic
/// events to play back.
pub ghost struct HandleOut {
    pub pressed: Seq<EventModel>,
    pub no_mapping: bool,
    pub only_mappings: bool,
    pub suppress: bool,
    pub synthetic: Seq<EventModel>,
}

/// The engine's transition on one key event.
///
/// A release removes the key from the queue and never suppresses;
/// releasing `meta`, or emptying the queue, resets the queue and
/// both flags. An atomic tap is ignored. A press first joins the
/// queue (unless that key is already down); while the no-mapping
/// flag holds, or no context matches, it passes through untouched.
/// Otherwise the queue's signature is looked up along the context's
/// parent chain: a bound action fires (consuming the pressed key
/// unless the binding is the stem sentinel), suppresses the event,
/// resolves to synthetic output and enters mapping-only mode; an
/// unbound single key passes through and enters no-mapping mode; an
/// unbound longer chord is swallowed in mapping-only mode, and
/// otherwise replays the whole withheld queue and enters no-mapping
/// mode.
pub open spec fn handle_spec(m: EngineModel, event: EventModel, app: Seq<char>, win: Seq<char>) -> HandleOut {
    match event.state {
        KeyState::Down => {
            let pressed1 = if has_down_key(m.pressed, event.key) {
                m.pressed
            } else {
                m.pressed.push(event)
            };
            if m.no_mapping {
                HandleOut {
                    pressed: pressed1,
                    no_mapping: m.no_mapping,
                    only_mappings: m.only_mappings,
                    suppress: false,
                    synthetic: Seq::empty(),
                }
            } else {
                match match_context_spec(m.ctxs, app, win) {
                    None => HandleOut {
                        pressed: pressed1,
                        no_mapping: m.no_mapping,
                        only_mappings: m.only_mappings,
                        suppress: false,
                        synthetic: Seq::empty(),
                    },
                    Some(c) => match find_chord_spec(m.ctxs, c, sig_of(pressed1), m.ctxs.len()) {
                        Some(a) => HandleOut {
                            pressed: if a == stem_action() {
                                pressed1
                            } else {
                                drop_key(pressed1, event.key)
                            },
                            no_mapping: m.no_mapping,
                            only_mappings: true,
                            suppress: true,
                            synthetic: resolve_spec(m.ctxs, c, a, resolve_fuel(m.ctxs)),
                        },
                        None => if pressed1.len() == 1 {
                            HandleOut {
                                pressed: pressed1,
                                no_mapping: true,
                                only_mappings: m.only_mappings,
                                suppress: false,
                                synthetic: Seq::empty(),
                            }
                        } else if m.only_mappings {
                            HandleOut {
                                pressed: pressed1,
                                no_mapping: m.no_mapping,
                                only_mappings: m.only_mappings,
                                suppress: true,
                                synthetic: Seq::empty(),
                            }
                        } else {
                            HandleOut {
                                pressed: pressed1,
                                no_mapping: true,
                                only_mappings: m.only_mappings,
                                suppress: false,
                                synthetic: pressed1,
                            }
                        },
                    },
                }
            }
        },
        KeyState::Up => {
            let pressed1 = drop_key(m.pressed, event.key);
            if event.key == "meta"@ || pressed1.len() == 0 {
                HandleOut {
                    pressed: Seq::empty(),
                    no_mapping: false,
                    only_mappings: false,
                    suppress: false,
                    synthetic: Seq::empty(),
                }
            } else {
                HandleOut {
                    pressed: pressed1,
                    no_mapping: m.no_mapping,
                    only_mappings: m.only_mappings,
                    suppress: false,
                    synthetic: Seq::empty(),
                }
            }
        },
        KeyState::DownUp => HandleOut {
            pressed: m.pressed,
            no_mapping: m.no_mapping,
            only_mappings: m.only_mappings,
            suppress: false,
            synthetic: Seq::empty(),
        },
    }
}

/// True when a key of the given name is already held down in the
/// queue.
fn queue_has_down(q: &VecDeque<KeyEvent>, key: &str) -> (r: bool)
    ensures
        r == has_down_key(events_model(q@), key@),
{
    let ghost m = events_model(q@);
    let mut i: usize = 0;
    while i < q.len()
        invariant
            m == events_model(q@),
            m.len() == q@.len(),
            0 <= i <= q@.len(),
            forall|j: int|
                0 <= j < i ==> !((#[trigger] m[j]).key == key@ && m[j].state == KeyState::Down),
        decreases q@.len() - i,
    {
        let matches_down = match q[i].state {
            KeyState::Down => str_eq(q[i].key.as_str(), key),
            _ => false,
        };
        proof {
            assert(m[i as int] == q@[i as int].model());
        }
        if matches_down {
            return true;
        }
        i += 1;
    }
    false
}

/// Removes every entry of the given name from the queue.
fn remove_key(q: &mut VecDeque<KeyEvent>, key: &str)
    ensures
        events_model(final(q)@) == drop_key(events_model(old(q)@), key@),
{
    let ghost m = events_model(q@);
    let mut out: VecDeque<KeyEvent> = VecDeque::new();
    let mut i: usize = 0;
    proof {
        assert(events_model(out@) =~= events_model(Seq::<KeyEvent>::empty()));
        assert(m.take(0) =~= Seq::<EventModel>::empty());
    }
    while i < q.len()
        invariant
            m == events_model(q@),
            m.len() == q@.len(),
            0 <= i <= q@.len(),
            events_model(out@) == drop_key(m.take(i as int), key@),
        decreases q@.len() - i,
    {
        let ghost pre = out@;
        proof {
            assert(m[i as int] == q@[i as int].model());
            assert(m.take(i + 1).drop_last() =~= m.take(i as int));
            assert(m.take(i + 1).last() == m[i as int]);
        }
        if !str_eq(q[i].key.as_str(), key) {
            out.push_back(q[i].duplicate());
            proof {
                assert forall|k: int| 0 <= k < out@.len() implies events_model(out@)[k]
                    == events_model(pre).push(m[i as int])[k] by {
                    if k < pre.len() {
                        assert(out@[k] == pre[k]);
                    }
                }
                assert(events_model(out@) =~= events_model(pre).push(m[i as int]));
                assert(drop_key(m.take(i + 1), key@) == drop_key(m.take(i as int), key@).push(
                    m[i as int],
                )) by {
                    assert(m.take(i + 1).drop_last() =~= m.take(i as int));
                    assert(m.take(i + 1).last() == m[i as int]);
                    assert(m.take(i + 1).len() > 0);
                }
            }
        } else {
            proof {
                assert(drop_key(m.take(i + 1), key@) == drop_key(m.take(i as int), key@)) by {
                    assert(m.take(i + 1).drop_last() =~= m.take(i as int));
                    assert(m.take(i + 1).last() == m[i as int]);
                    assert(m.take(i + 1).len() > 0);
                }
            }
        }
        i += 1;
    }
    proof {
        assert(m.take(m.len() as int) =~= m);
    }
    *q = out;
}

/// Copies the queued events, in order.
fn clone_events(q: &VecDeque<KeyEvent>) -> (r: Vec<KeyEvent>)
    ensures
        events_model(r@) == events_model(q@),
{
    let mut out: Vec<KeyEvent> = Vec::new();
    let mut i: usize = 0;
    while i < q.len()
        invariant
            0 <= i <= q@.len(),
            out@.len() == i,
            forall|j: int| 0 <= j < i ==> (#[trigger] out@[j]).model() == q@[j].model(),
        decreases q@.len() - i,
    {
        out.push(q[i].duplicate());
        i += 1;
    }
    proof {
        assert forall|j: int| 0 <= j < out@.len() implies events_model(out@)[j] == events_model(
            q@,
        )[j] by {
            assert(events_model(out@)[j] == out@[j].model());
            assert(events_model(q@)[j] == q@[j].model());
        }
        assert(events_model(out@) =~= events_model(q@));
    }
    out
}

impl PinkyTwirlEngine {
    /// Clears the pressed-key queue and both session flags; the
    /// context model and the synthetic buffer are untouched.
    pub fn reset(&mut self)
        ensures
            final(self).model() == (EngineModel {
                pressed: Seq::empty(),
                no_mapping: false,
                only_mappings: false,
                ..old(self).model()
            }),
            final(self).contexts@ == old(self).contexts@,
            final(self).keycodes == old(self).keycodes,
            final(self).synthetic_keys@ == old(self).synthetic_keys@,
    {
        self.pressed_keys.clear();
        self.no_mapping_until_reset = false;
        self.only_mappings_until_reset = false;
        proof {
            assert(events_model(self.pressed_keys@) =~= Seq::<EventModel>::empty());
        }
    }

    /// The position of the active context for the given foreground
    /// names, by the priority order of `match_context_spec`.
    fn get_context_idx(&self, app_name: &str, window_name: &str) -> (r: Option<usize>)
        ensures
            match r {
                Some(i) => i < self.contexts@.len() && match_context_spec(
                    self.model().ctxs,
                    app_name@,
                    window_name@,
                ) == Some(self.contexts@[i as int].model()),
                None => match_context_spec(self.model().ctxs, app_name@, window_name@) is None,
            },
    {
        if let Some(i) = find_first_exact(&self.contexts, app_name) {
            return Some(i);
        }
        if let Some(i) = find_first_exact(&self.contexts, window_name) {
            return Some(i);
        }
        if let Some(i) = find_first_ci(&self.contexts, app_name) {
            return Some(i);
        }
        if let Some(i) = find_first_ci(&self.contexts, window_name) {
            return Some(i);
        }
        if let Some(i) = find_first_sub(&self.contexts, app_name) {
            return Some(i);
        }
        if let Some(i) = find_first_sub(&self.contexts, window_name) {
            return Some(i);
        }
        if let Some(i) = crate::contexts::context_index(&self.contexts, "Default") {
            return Some(i);
        }
        if let Some(i) = crate::contexts::context_index(&self.contexts, "default") {
            return Some(i);
        }
        if let Some(i) = find_first_sub(&self.contexts, "default") {
            return Some(i);
        }
        None
    }

    /// Handles one raw key event for the given foreground
    /// application and window: returns whether the event must be
    /// suppressed, and the synthetic events to play back in its
    /// place.
    pub fn handle_key_event(&mut self, event: KeyEvent, app_name: &str, window_name: &str) -> (r:
        (bool, Vec<KeyEvent>))
        ensures
            ({
                let o = handle_spec(old(self).model(), event.model(), app_name@, window_name@);
                &&& final(self).model().pressed == o.pressed
                &&& final(self).model().no_mapping == o.no_mapping
                &&& final(self).model().only_mappings == o.only_mappings
                &&& r.0 == o.suppress
                &&& events_model(r.1@) == o.synthetic
                &&& final(self).contexts@ == old(self).contexts@
                &&& final(self).keycodes == old(self).keycodes
                &&& final(self).synthetic_keys@ == old(self).synthetic_keys@
            }),
    {
        let ghost m0 = self.model();
        match event.state {
            KeyState::Down => {
                if !queue_has_down(&self.pressed_keys, event.key.as_str()) {
                    self.pressed_keys.push_back(event.duplicate());
                    proof {
                        assert(events_model(self.pressed_keys@) =~= m0.pressed.push(event.model()));
                    }
                }
                let ghost pressed1 = events_model(self.pressed_keys@);
                if self.no_mapping_until_reset {
                    return (false, Vec::new());
                }
                match self.get_context_idx(app_name, window_name) {
                    None => (false, Vec::new()),
                    Some(ci) => {
                        let sig = build_signature(&self.pressed_keys);
                        let fuel = self.contexts.len();
                        let found = self.find_chord_in(&self.contexts[ci], sig.as_str(), fuel);
                        match found {
                            Some(action_ref) => {
                                let is_stem = match action_ref {
                                    SemanticAction::Action(n) => str_eq(n.as_str(), "MappingStem"),
                                    _ => false,
                                };
                                proof {
                                    assert(is_stem == (action_ref.model() == stem_action()));
                                }
                                let synth = self.resolve_semantic_action(
                                    action_ref,
                                    &self.contexts[ci],
                                );
                                if !is_stem {
                                    remove_key(&mut self.pressed_keys, event.key.as_str());
                                }
                                self.only_mappings_until_reset = true;
                                (true, synth)
                            },
                            None => {
                                if self.pressed_keys.len() == 1 {
                                    self.no_mapping_until_reset = true;
                                    (false, Vec::new())
                                } else if self.only_mappings_until_reset {
                                    (true, Vec::new())
                                } else {
                                    let synth = clone_events(&self.pressed_keys);
                                    self.no_mapping_until_reset = true;
                                    (false, synth)
                                }
                            },
                        }
                    },
                }
            },
            KeyState::Up => {
                remove_key(&mut self.pressed_keys, event.key.as_str());
                let is_meta = str_eq(event.key.as_str(), "meta");
                if is_meta || self.pressed_keys.len() == 0 {
                    self.reset();
                }
                (false, Vec::new())
            },
            KeyState::DownUp => (false, Vec::new()),
        }
    }
}

/// The event the platform translation builds from a raw key code
/// and modifier flags: the canonical name registered for the code
/// (`Unknown` when the table lacks it), a press or release state,
/// and the modifiers as given.
pub open spec fn macos_event_spec(
    kc: KeycodesModel,
    key_code: i64,
    down: bool,
    shift: bool,
    ctrl: bool,
    option: bool,
    meta: bool,
) -> EventModel {
    EventModel {
        key: match assoc_lookup(kc.codes, key_code) {
            Some(n) => n,
            None => "Unknown"@,
        },
        code: key_code as int,
        state: if down {
            KeyState::Down
        } else {
            KeyState::Up
        },
        shift: shift,
        ctrl: ctrl,
        alt: option,
        meta: meta,
        func: false,
        modifier_down_only: false,
    }
}

/// A synthetic event re-stamped for injection: its numeric code is
/// looked up from its name (zero when unmapped) and its state is
/// replaced.
pub open spec fn stamp_event(kc: KeycodesModel, e: EventModel, st: KeyState) -> EventModel {
    EventModel {
        code: match assoc_lookup(kc.names, e.key) {
            Some(c) => c as int,
            None => 0,
        },
        state: st,
        ..e
    }
}

/// Synthetic output prepared for injection: each atomic tap becomes
/// a press immediately followed by a release, and every event's
/// numeric code is re-stamped from its name.
pub open spec fn expand_events(kc: KeycodesModel, s: Seq<EventModel>) -> Seq<EventModel>
    decreases s.len(),
{
    if s.len() == 0 {
        Seq::empty()
    } else {
        expand_events(kc, s.drop_last()) + (if s.last().state == KeyState::DownUp {
            seq![
                stamp_event(kc, s.last(), KeyState::Down),
                stamp_event(kc, s.last(), KeyState::Up),
            ]
        } else {
            seq![stamp_event(kc, s.last(), s.last().state)]
        })
    }
}

impl PinkyTwirlEngine {
    /// An engine over a built context table, with the platform
    /// key-code table, an empty key queue, cleared session flags and
    /// an empty synthetic buffer.
    pub fn new(contexts: Vec<Context>) -> (r: Self)
        ensures
            r.model() == (EngineModel {
                ctxs: contexts_model(contexts@),
                pressed: Seq::empty(),
                no_mapping: false,
                only_mappings: false,
                synthetic: Seq::empty(),
                keycodes: keycode_map_model(),
            }),
    {
        let r = PinkyTwirlEngine {
            contexts,
            pressed_keys: VecDeque::new(),
            keycodes: create_keycode_map(),
            no_mapping_until_reset: false,
            only_mappings_until_reset: false,
            synthetic_keys: Vec::new(),
        };
        proof {
            assert(events_model(r.pressed_keys@) =~= Seq::<EventModel>::empty());
            assert(events_model(r.synthetic_keys@) =~= Seq::<EventModel>::empty());
        }
        r
    }

    /// Loads the three configuration sources, already read and (for
    /// the context table) decoded into entries: builds the context
    /// table, then stores the compiled macros of the semantics
    /// source and the chord bindings of the mappings source. String
    /// configuration never fails to load: unknown names degrade as
    /// the sources' rules say.
    pub fn load_configurations(
        &mut self,
        entries: Vec<(String, YamlContext)>,
        semantics_src: &str,
        mappings_src: &str,
    ) -> (r: Result<(), ()>)
        ensures
            r is Ok,
            final(self).model().ctxs == parse_mappings_spec(
                parse_semantics_spec(
                    build_contexts_spec(yaml_entries_model(entries@)),
                    semantics_src@,
                    old(self).model().keycodes.names,
                ),
                mappings_src@,
                old(self).model().keycodes.names,
            ),
            final(self).model().pressed == old(self).model().pressed,
            final(self).model().no_mapping == old(self).model().no_mapping,
            final(self).model().only_mappings == old(self).model().only_mappings,
            final(self).model().synthetic == old(self).model().synthetic,
            final(self).keycodes == old(self).keycodes,
    {
        self.contexts = crate::contexts::build_contexts(entries);
        crate::semantics::parse_semantics(semantics_src, &mut self.contexts, &self.keycodes);
        crate::mappings::parse_mappings(mappings_src, &mut self.contexts, &self.keycodes);
        Ok(())
    }

    /// Translates a raw platform key event, hands it to the engine,
    /// and leaves the expanded, re-stamped synthetic output in the
    /// buffer that `get_synthetic_events` drains. Returns whether
    /// the raw event must be suppressed.
    pub fn macos_handle_key_event(
        &mut self,
        key_code: i64,
        down: bool,
        shift: bool,
        ctrl: bool,
        option: bool,
        meta: bool,
        app_name: &str,
        window_name: &str,
    ) -> (r: bool)
        ensures
            ({
                let ev = macos_event_spec(
                    old(self).model().keycodes,
                    key_code,
                    down,
                    shift,
                    ctrl,
                    option,
                    meta,
                );
                let o = handle_spec(old(self).model(), ev, app_name@, window_name@);
                &&& final(self).model().pressed == o.pressed
                &&& final(self).model().no_mapping == o.no_mapping
                &&& final(self).model().only_mappings == o.only_mappings
                &&& r == o.suppress
                &&& final(self).model().synthetic == expand_events(
                    old(self).model().keycodes,
                    o.synthetic,
                )
                &&& final(self).contexts@ == old(self).contexts@
                &&& final(self).keycodes == old(self).keycodes
            }),
    {
        let key_name: String = match self.keycodes.name_for_code(key_code) {
            Some(n) => n.clone(),
            None => "Unknown".to_owned(),
        };
        let event = KeyEvent {
            key: key_name,
            code: key_code,
            state: if down {
                KeyState::Down
            } else {
                KeyState::Up
            },
            shift,
            ctrl,
            alt: option,
            meta,
            func: false,
            modifier_down_only: false,
        };
        let (suppress, synth) = self.handle_key_event(event, app_name, window_name);
        let ghost kc = self.keycodes.model();
        let ghost sm = events_model(synth@);
        let mut expanded: Vec<KeyEvent> = Vec::new();
        let mut i: usize = 0;
        while i < synth.len()
            invariant
                kc == self.keycodes.model(),
                sm == events_model(synth@),
                sm.len() == synth@.len(),
                0 <= i <= synth@.len(),
                events_model(expanded@) == expand_events(kc, sm.take(i as int)),
            decreases synth@.len() - i,
        {
            let ghost pre = expanded@;
            let e = &synth[i];
            let code2: i64 = match self.keycodes.code_for_name(e.key.as_str()) {
                Some(c) => c,
                None => 0,
            };
            proof {
                assert(sm[i as int] == synth@[i as int].model());
                assert(sm.take(i + 1).drop_last() =~= sm.take(i as int));
                assert(sm.take(i + 1).last() == sm[i as int]);
            }
            let is_tap = match e.state {
                KeyState::DownUp => true,
                _ => false,
            };
            if is_tap {
                expanded.push(
                    KeyEvent {
                        key: e.key.clone(),
                        code: code2,
                        state: KeyState::Down,
                        shift: e.shift,
                        ctrl: e.ctrl,
                        alt: e.alt,
                        meta: e.meta,
                        func: e.func,
                        modifier_down_only: e.modifier_down_only,
                    },
                );
                expanded.push(
                    KeyEvent {
                        key: e.key.clone(),
                        code: code2,
                        state: KeyState::Up,
                        shift: e.shift,
                        ctrl: e.ctrl,
                        alt: e.alt,
                        meta: e.meta,
                        func: e.func,
                        modifier_down_only: e.modifier_down_only,
                    },
                );
                proof {
                    assert forall|k: int| 0 <= k < expanded@.len() implies events_model(
                        expanded@,
                    )[k] == (events_model(pre) + seq![
                        stamp_event(kc, sm[i as int], KeyState::Down),
                        stamp_event(kc, sm[i as int], KeyState::Up),
                    ])[k] by {
                        if k < pre.len() {
                            assert(expanded@[k] == pre[k]);
                        }
                    }
                    assert(events_model(expanded@) =~= events_model(pre) + seq![
                        stamp_event(kc, sm[i as int], KeyState::Down),
                        stamp_event(kc, sm[i as int], KeyState::Up),
                    ]);
                }
            } else {
                expanded.push(
                    KeyEvent {
                        key: e.key.clone(),
                        code: code2,
                        state: e.state,
                        shift: e.shift,
                        ctrl: e.ctrl,
                        alt: e.alt,
                        meta: e.meta,
                        func: e.func,
                        modifier_down_only: e.modifier_down_only,
                    },
                );
                proof {
                    assert forall|k: int| 0 <= k < expanded@.len() implies events_model(
                        expanded@,
                    )[k] == (events_model(pre) + seq![
                        stamp_event(kc, sm[i as int], sm[i as int].state),
                    ])[k] by {
                        if k < pre.len() {
                            assert(expanded@[k] == pre[k]);
                        }
                    }
                    assert(events_model(expanded@) =~= events_model(pre) + seq![
                        stamp_event(kc, sm[i as int], sm[i as int].state),
                    ]);
                }
            }
            i += 1;
        }
        proof {
            assert(sm.take(sm.len() as int) =~= sm);
        }
        self.synthetic_keys = expanded;
        suppress
    }

    /// Drains the synthetic-event buffer: returns the pending
    /// events, in order, and leaves the buffer empty.
    pub fn get_synthetic_events(&mut self) -> (r: Vec<KeyEvent>)
        ensures
            events_model(r@) == old(self).model().synthetic,
            final(self).model() == (EngineModel {
                synthetic: Seq::empty(),
                ..old(self).model()
            }),
            final(self).contexts@ == old(self).contexts@,
            final(self).keycodes == old(self).keycodes,
            final(self).pressed_keys@ == old(self).pressed_keys@,
    {
        let mut out: Vec<KeyEvent> = Vec::new();
        let mut i: usize = 0;
        while i < self.synthetic_keys.len()
            invariant
                self.synthetic_keys@ == old(self).synthetic_keys@,
                self == old(self),
                0 <= i <= self.synthetic_keys@.len(),
                out@.len() == i,
                forall|j: int|
                    0 <= j < i ==> (#[trigger] out@[j]).model() == self.synthetic_keys@[j].model(),
            decreases self.synthetic_keys@.len() - i,
        {
            out.push(self.synthetic_keys[i].duplicate());
            i += 1;
        }
        self.synthetic_keys.clear();
        proof {
            assert forall|j: int| 0 <= j < out@.len() implies events_model(out@)[j] == events_model(
                old(self).synthetic_keys@,
            )[j] by {
                assert(events_model(out@)[j] == out@[j].model());
                assert(events_model(old(self).synthetic_keys@)[j] == old(
                    self,
                ).synthetic_keys@[j].model());
            }
            assert(events_model(out@) =~= events_model(old(self).synthetic_keys@));
            assert(events_model(self.synthetic_keys@) =~= Seq::<EventModel>::empty());
        }
        out
    }
}

} // verus!

//! Engine-wide laws: properties that relate several operations, each
//! proved once and for all inputs.

use vstd::prelude::*;

use crate::engine::{drop_key, find_chord_spec, handle_spec, match_context_spec, resolve_spec,
    sig_of, EngineModel,
};
use crate::strutil::join_sep_spec;
use crate::contexts::KeyState;
use crate::model::{ActionModel, CtxModel, EventModel};

verus! {

/// Context matching is total and deterministic: for a fixed context
/// model it is a pure function of the application and window names,
/// so any two matches made with identical inputs agree.
pub proof fn lemma_match_context_deterministic(
    ctxs: Seq<CtxModel>,
    app: Seq<char>,
    win: Seq<char>,
    r1: Option<CtxModel>,
    r2: Option<CtxModel>,
)
    requires
        r1 == match_context_spec(ctxs, app, win),
        r2 == match_context_spec(ctxs, app, win),
    ensures
        r1 == r2,
{
}

/// Macro expansion is repeatable: resolving an action twice against
/// an unchanged context model yields identical output lists.
pub proof fn lemma_resolve_deterministic(
    ctxs: Seq<CtxModel>,
    c: CtxModel,
    a: ActionModel,
    fuel: nat,
    r1: Seq<EventModel>,
    r2: Seq<EventModel>,
)
    requires
        r1 == resolve_spec(ctxs, c, a, fuel),
        r2 == resolve_spec(ctxs, c, a, fuel),
    ensures
        r1 == r2,
{
}

/// Chord signatures are order-sensitive: for two keys with distinct
/// space-free names, the signature of pressing one then the other
/// differs from the signature of the opposite order (pressing `meta`
/// then `j` yields `meta + j`, not `j + meta`).
pub proof fn lemma_signature_order_sensitive(k1: EventModel, k2: EventModel)
    requires
        k1.key != k2.key,
        forall|i: int| 0 <= i < k1.key.len() ==> #[trigger] k1.key[i] != ' ',
        forall|i: int| 0 <= i < k2.key.len() ==> #[trigger] k2.key[i] != ' ',
    ensures
        sig_of(seq![k1, k2]) != sig_of(seq![k2, k1]),
{
    reveal_strlit(" + ");
    let a = k1.key;
    let b = k2.key;
    let sep = " + "@;
    let s1 = sig_of(seq![k1, k2]);
    let s2 = sig_of(seq![k2, k1]);
    assert(seq![k1, k2].map_values(|e: EventModel| e.key) =~= seq![a, b]);
    assert(seq![k2, k1].map_values(|e: EventModel| e.key) =~= seq![b, a]);
    assert(seq![a, b].skip(1) =~= seq![b]);
    assert(seq![b, a].skip(1) =~= seq![a]);
    assert(join_sep_spec(seq![b], sep) == b);
    assert(join_sep_spec(seq![a], sep) == a);
    assert(join_sep_spec(seq![a, b], sep) == seq![a, b][0] + sep + join_sep_spec(
        seq![a, b].skip(1),
        sep,
    ));
    assert(join_sep_spec(seq![b, a], sep) == seq![b, a][0] + sep + join_sep_spec(
        seq![b, a].skip(1),
        sep,
    ));
    assert(s1 == a + sep + b);
    assert(s2 == b + sep + a);
    assert(sep.len() == 3 && sep[0] == ' ');
    if a.len() == b.len() {
        if s1 == s2 {
            assert forall|i: int| 0 <= i < a.len() implies a[i] == b[i] by {
                assert(s1[i] == a[i]);
                assert(s2[i] == b[i]);
            }
            assert(a =~= b);
        }
    } else if a.len() < b.len() {
        let i = a.len() as int;
        assert(s1[i] == sep[0]);
        assert(s2[i] == b[i]);
        assert(s1[i] != s2[i]);
        assert(s1.len() == s2.len());
    } else {
        let i = b.len() as int;
        assert(s2[i] == sep[0]);
        assert(s1[i] == a[i]);
        assert(s1[i] != s2[i]);
        assert(s1.len() == s2.len());
    }
}

/// Single orphan key: a Down event whose key, alone, matches no
/// chord and no stem in the active context or its ancestors passes
/// through with no synthetic output and flips the engine into
/// no-mapping mode, in which every further Down event passes through
/// untouched until reset.
pub proof fn lemma_single_orphan_key(
    m: EngineModel,
    event: EventModel,
    app: Seq<char>,
    win: Seq<char>,
    c: CtxModel,
    e2: EventModel,
    app2: Seq<char>,
    win2: Seq<char>,
)
    requires
        m.pressed.len() == 0,
        !m.no_mapping,
        event.state == KeyState::Down,
        match_context_spec(m.ctxs, app, win) == Some(c),
        find_chord_spec(m.ctxs, c, sig_of(seq![event]), m.ctxs.len()) is None,
        e2.state == KeyState::Down,
    ensures
        ({
            let o = handle_spec(m, event, app, win);
            &&& !o.suppress
            &&& o.synthetic == Seq::<EventModel>::empty()
            &&& o.no_mapping
            &&& ({
                let m2 = EngineModel {
                    pressed: o.pressed,
                    no_mapping: o.no_mapping,
                    only_mappings: o.only_mappings,
                    ..m
                };
                let o2 = handle_spec(m2, e2, app2, win2);
                !o2.suppress && o2.synthetic == Seq::<EventModel>::empty() && o2.no_mapping
            })
        }),
{
    assert(m.pressed.push(event) =~= seq![event]);
}

/// While the no-mapping flag holds, every Down event passes through
/// with no output and the flag stays set, so pass-through persists
/// until a reset clears it.
pub proof fn lemma_no_mapping_mode_passes_through(
    m: EngineModel,
    event: EventModel,
    app: Seq<char>,
    win: Seq<char>,
)
    requires
        m.no_mapping,
        event.state == KeyState::Down,
    ensures
        ({
            let o = handle_spec(m, event, app, win);
            &&& !o.suppress
            &&& o.synthetic == Seq::<EventModel>::empty()
            &&& o.no_mapping
        }),
{
}

/// Reset completeness: an Up event for `meta`, or any Up event after
/// which no key remains held, leaves the pressed-key queue empty and
/// both suppression flags false.
pub proof fn lemma_reset_complete(
    m: EngineModel,
    event: EventModel,
    app: Seq<char>,
    win: Seq<char>,
)
    requires
        event.state == KeyState::Up,
        event.key == "meta"@ || drop_key(m.pressed, event.key).len() == 0,
    ensures
        ({
            let o = handle_spec(m, event, app, win);
            &&& o.pressed.len() == 0
            &&& !o.no_mapping
            &&& !o.only_mappings
        }),
{
}

} // verus!

//! The mappings configuration source: a line-oriented text that
//! binds chord signatures to actions, grouped under the context a
//! non-indented line selects, with indented `prefix:` lines that
//! open a chord prefix and register it as a stem.

use vstd::prelude::*;

use crate::contexts::{compile_action_spec, contexts_model, ctx_index_spec, insert_mapping_entry,
    parse_semantic_action, stem_name, Context, SemanticAction,
};
use crate::keycode_macos::KeyCodeLookup;
use crate::model::{assoc_insert, ActionModel, CtxModel};
use crate::semantics::{is_context_line, skip_line};
use crate::strutil::{find_char_spec, lines_of, lines_spec, lower_of, split_once_char, str_lower,
    strip_trailing_spec, trim_end_char, trim_spec, trim_str,
};

verus! {

/// The per-line state of reading the mappings source: the context
/// table so far, the context the last selector line chose, and the
/// open chord prefix.
pub ghost struct MapState {
    pub ctxs: Seq<CtxModel>,
    pub cur: Option<int>,
    pub prefix: Seq<char>,
}

/// What one line of the mappings source does to the state: a selector
/// line picks the named context and clears the prefix; an indented
/// line ending in `:` opens a chord prefix and registers it,
/// lowercased, as a stem; an indented `key = definition` line binds
/// the full chord, lowercased, to the compiled action.
pub open spec fn map_step(st: MapState, line: Seq<char>, names: Seq<(Seq<char>, i64)>) -> MapState {
    let t = trim_spec(line);
    if skip_line(t) {
        st
    } else if is_context_line(line) {
        MapState {
            ctxs: st.ctxs,
            cur: ctx_index_spec(st.ctxs, strip_trailing_spec(t, ':')),
            prefix: Seq::empty(),
        }
    } else if t.len() > 0 && t[t.len() - 1] == ':' {
        let p = strip_trailing_spec(t, ':');
        match st.cur {
            None => MapState { prefix: p, ..st },
            Some(ci) => if !(0 <= ci < st.ctxs.len()) {
                MapState { prefix: p, ..st }
            } else {
                let c = st.ctxs[ci];
                let km = assoc_insert(c.key_mappings, lower_of(p), ActionModel::Action(stem_name()));
                MapState {
                    ctxs: st.ctxs.update(ci, CtxModel { key_mappings: km, ..c }),
                    cur: st.cur,
                    prefix: p,
                }
            },
        }
    } else {
        match st.cur {
            None => st,
            Some(ci) => if !(0 <= ci < st.ctxs.len()) {
                st
            } else {
                match find_char_spec(t, '=') {
                    None => st,
                    Some(k) => {
                        let keypart = trim_spec(t.subrange(0, k));
                        let full_key = if st.prefix.len() == 0 {
                            keypart
                        } else {
                            st.prefix + " + "@ + keypart
                        };
                        let act = compile_action_spec(trim_spec(t.skip(k + 1)), names);
                        let c = st.ctxs[ci];
                        let km = assoc_insert(c.key_mappings, lower_of(full_key), act);
                        MapState {
                            ctxs: st.ctxs.update(ci, CtxModel { key_mappings: km, ..c }),
                            cur: st.cur,
                            prefix: st.prefix,
                        }
                    },
                }
            },
        }
    }
}

pub open spec fn map_fold(st: MapState, lines: Seq<Seq<char>>, names: Seq<(Seq<char>, i64)>) -> MapState
    decreases lines.len(),
{
    if lines.len() == 0 {
        st
    } else {
        map_step(map_fold(st, lines.take(lines.len() - 1), names), lines[lines.len() - 1], names)
    }
}

/// What reading the whole mappings source does to a context table.
pub open spec fn parse_mappings_spec(
    ctxs: Seq<CtxModel>,
    content: Seq<char>,
    names: Seq<(Seq<char>, i64)>,
) -> Seq<CtxModel> {
    map_fold(MapState { ctxs, cur: None, prefix: Seq::empty() }, lines_spec(content), names).ctxs
}

/// Reads the mappings source and stores each chord binding in its
/// context.
pub fn parse_mappings(content: &str, contexts: &mut Vec<Context>, keycodes: &KeyCodeLookup)
    ensures
        contexts_model(final(contexts)@) == parse_mappings_spec(
            contexts_model(old(contexts)@),
            content@,
            keycodes.model().names,
        ),
{
    let lines = lines_of(content);
    let ghost names = keycodes.model().names;
    let ghost lns = lines_spec(content@);
    let ghost st0 = MapState {
        ctxs: contexts_model(contexts@),
        cur: None,
        prefix: Seq::empty(),
    };
    let mut cur: Option<usize> = None;
    let mut prefix = String::new();
    let mut i: usize = 0;
    while i < lines.len()
        invariant
            names == keycodes.model().names,
            lns == lines_spec(content@),
            lines.deep_view() == lns,
            lns.len() == lines@.len(),
            st0 == (MapState {
                ctxs: contexts_model(old(contexts)@),
                cur: None::<int>,
                prefix: Seq::<char>::empty(),
            }),
            0 <= i <= lines.len(),
            ({
                let st = map_fold(st0, lns.take(i as int), names);
                &&& contexts_model(contexts@) == st.ctxs
                &&& contexts@.len() == st.ctxs.len()
                &&& prefix@ == st.prefix
                &&& (match (cur, st.cur) {
                    (None, None) => true,
                    (Some(a), Some(b)) => a as int == b && (a as int) < contexts@.len(),
                    _ => false,
                })
            }),
        decreases lines.len() - i,
    {
        let ghost st_pre = map_fold(st0, lns.take(i as int), names);
        proof {
            assert(lns.take(i + 1).take(i as int) =~= lns.take(i as int));
            assert(lns.take(i + 1)[i as int] == lns[i as int]);
            assert(map_fold(st0, lns.take(i + 1), names) == map_step(st_pre, lns[i as int], names));
            assert(lines.deep_view()[i as int] == lines@[i as int]@);
        }
        let line = lines[i].as_str();
        let t = trim_str(line);
        let tn = t.unicode_len();
        let is_skip = tn == 0 || (tn >= 2 && t.get_char(0) == '/' && t.get_char(1) == '/');
        if !is_skip {
            let ln = line.unicode_len();
            let indented = ln > 0 && (line.get_char(0) == ' ' || line.get_char(0) == '\t');
            if !indented {
                let nm = trim_end_char(t, ':');
                cur = crate::contexts::context_index(contexts, nm);
                prefix = String::new();
                proof {
                    assert(prefix@ =~= Seq::<char>::empty());
                }
            } else if tn > 0 && t.get_char(tn - 1) == ':' {
                prefix = trim_end_char(t, ':').to_owned();
                if let Some(ci) = cur {
                    let stem_key = str_lower(prefix.as_str());
                    let stem = SemanticAction::Action("MappingStem".to_owned());
                    proof {
                        assert(stem.model() == ActionModel::Action(stem_name()));
                    }
                    insert_mapping_entry(contexts, ci, stem_key, stem);
                    proof {
                        assert(contexts_model(contexts@) =~= map_step(
                            st_pre,
                            lns[i as int],
                            names,
                        ).ctxs);
                    }
                }
            } else {
                if let Some(ci) = cur {
                    match split_once_char(t, '=') {
                        Some((k, v)) => {
                            let keypart = trim_str(k.as_str());
                            let full_key: String = if prefix.as_str().unicode_len() == 0 {
                                keypart.to_owned()
                            } else {
                                let mut fk = prefix.clone();
                                fk.append(" + ");
                                fk.append(keypart);
                                fk
                            };
                            let lowered = str_lower(full_key.as_str());
                            let act = parse_semantic_action(trim_str(v.as_str()), keycodes);
                            insert_mapping_entry(contexts, ci, lowered, act);
                            proof {
                                assert(contexts_model(contexts@) =~= map_step(
                                    st_pre,
                                    lns[i as int],
                                    names,
                                ).ctxs);
                            }
                        },
                        None => {
                        },
                    }
                }
            }
        }
        i += 1;
    }
    proof {
        assert(lns.take(lns.len() as int) =~= lns);
    }
}

} // verus!

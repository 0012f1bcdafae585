//! The semantics configuration source: a line-oriented text that
//! defines named macros, grouped under the context a non-indented
//! line selects.

use vstd::prelude::*;

use crate::contexts::{compile_action_spec, contexts_model, ctx_index_spec, parse_semantic_action,
    Context,
};
use crate::keycode_macos::KeyCodeLookup;
use crate::model::{assoc_insert, CtxModel};
use crate::strutil::{find_char_spec, lines_of, lines_spec, lower_of, split_once_char, str_lower,
    strip_trailing_spec, trim_end_char, trim_spec, trim_str,
};

verus! {

/// The per-line state of reading a grouped configuration source: the
/// context table so far and the context the last selector line chose.
pub ghost struct SemState {
    pub ctxs: Seq<CtxModel>,
    pub cur: Option<int>,
}

/// A blank line or a comment line, ignored everywhere.
pub open spec fn skip_line(t: Seq<char>) -> bool {
    t.len() == 0 || (t.len() >= 2 && t[0] == '/' && t[1] == '/')
}

/// A non-indented line selects the context for the lines after it.
pub open spec fn is_context_line(line: Seq<char>) -> bool {
    line.len() == 0 || (line[0] != ' ' && line[0] != '\t')
}

/// What one line of the semantics source does to the state: a
/// selector line picks the named context; an indented `name =
/// definition` line compiles the definition and stores it under both
/// its original and its lowercased name; anything else changes
/// nothing.
pub open spec fn sem_step(st: SemState, line: Seq<char>, names: Seq<(Seq<char>, i64)>) -> SemState {
    let t = trim_spec(line);
    if skip_line(t) {
        st
    } else if is_context_line(line) {
        SemState { ctxs: st.ctxs, cur: ctx_index_spec(st.ctxs, strip_trailing_spec(t, ':')) }
    } else {
        match st.cur {
            None => st,
            Some(ci) => if !(0 <= ci < st.ctxs.len()) {
                st
            } else {
                match find_char_spec(t, '=') {
                    None => st,
                    Some(k) => {
                        let nm = trim_spec(t.subrange(0, k));
                        let def = trim_spec(t.skip(k + 1));
                        let act = compile_action_spec(def, names);
                        let c = st.ctxs[ci];
                        let sa = assoc_insert(
                            assoc_insert(c.semantic_actions, nm, act),
                            lower_of(nm),
                            act,
                        );
                        SemState {
                            ctxs: st.ctxs.update(ci, CtxModel { semantic_actions: sa, ..c }),
                            cur: st.cur,
                        }
                    },
                }
            },
        }
    }
}

pub open spec fn sem_fold(st: SemState, lines: Seq<Seq<char>>, names: Seq<(Seq<char>, i64)>) -> SemState
    decreases lines.len(),
{
    if lines.len() == 0 {
        st
    } else {
        sem_step(sem_fold(st, lines.take(lines.len() - 1), names), lines[lines.len() - 1], names)
    }
}

/// What reading the whole semantics source does to a context table.
pub open spec fn parse_semantics_spec(
    ctxs: Seq<CtxModel>,
    content: Seq<char>,
    names: Seq<(Seq<char>, i64)>,
) -> Seq<CtxModel> {
    sem_fold(SemState { ctxs, cur: None }, lines_spec(content), names).ctxs
}

/// Reads the semantics source and stores each compiled macro in its
/// context.
pub fn parse_semantics(content: &str, contexts: &mut Vec<Context>, keycodes: &KeyCodeLookup)
    ensures
        contexts_model(final(contexts)@) == parse_semantics_spec(
            contexts_model(old(contexts)@),
            content@,
            keycodes.model().names,
        ),
{
    let lines = lines_of(content);
    let ghost names = keycodes.model().names;
    let ghost lns = lines_spec(content@);
    let ghost st0 = SemState { ctxs: contexts_model(contexts@), cur: None };
    let mut cur: Option<usize> = None;
    let mut i: usize = 0;
    while i < lines.len()
        invariant
            names == keycodes.model().names,
            lns == lines_spec(content@),
            lines.deep_view() == lns,
            lns.len() == lines@.len(),
            st0 == (SemState { ctxs: contexts_model(old(contexts)@), cur: None::<int> }),
            0 <= i <= lines.len(),
            ({
                let st = sem_fold(st0, lns.take(i as int), names);
                &&& contexts_model(contexts@) == st.ctxs
                &&& contexts@.len() == st.ctxs.len()
                &&& (match (cur, st.cur) {
                    (None, None) => true,
                    (Some(a), Some(b)) => a as int == b && (a as int) < contexts@.len(),
                    _ => false,
                })
            }),
        decreases lines.len() - i,
    {
        let ghost st_pre = sem_fold(st0, lns.take(i as int), names);
        proof {
            assert(lns.take(i + 1).take(i as int) =~= lns.take(i as int));
            assert(lns.take(i + 1)[i as int] == lns[i as int]);
            assert(sem_fold(st0, lns.take(i + 1), names) == sem_step(st_pre, lns[i as int], names));
            assert(lines.deep_view()[i as int] == lines@[i as int]@);
        }
        let line = lines[i].as_str();
        let t = trim_str(line);
        let tn = t.unicode_len();
        let is_skip = tn == 0 || (tn >= 2 && t.get_char(0) == '/' && t.get_char(1) == '/');
        if !is_skip {
            let ln = line.unicode_len();
            let indented = ln > 0 && (line.get_char(0) == ' ' || line.get_char(0) == '\t');
            if !indented {
                let nm = trim_end_char(t, ':');
                cur = crate::contexts::context_index(contexts, nm);
            } else {
                if let Some(ci) = cur {
                    match split_once_char(t, '=') {
                        Some((k, v)) => {
                            let nm = trim_str(k.as_str()).to_owned();
                            let nml = str_lower(nm.as_str());
                            let d = trim_str(v.as_str());
                            let act1 = parse_semantic_action(d, keycodes);
                            let act2 = parse_semantic_action(d, keycodes);
                            let ghost mpre = contexts_model(contexts@);
                            crate::contexts::insert_action_entry(contexts, ci, nm, act1);
                            proof {
                                assert(contexts_model(contexts@).len() == contexts@.len());
                                assert(contexts_model(contexts@).len() == mpre.len());
                            }
                            crate::contexts::insert_action_entry(contexts, ci, nml, act2);
                            proof {
                                let m1 = mpre.update(
                                    ci as int,
                                    CtxModel {
                                        semantic_actions: assoc_insert(
                                            mpre[ci as int].semantic_actions,
                                            trim_spec(t@.subrange(
                                                0,
                                                find_char_spec(t@, '=')->Some_0,
                                            )),
                                            act1.model(),
                                        ),
                                        ..mpre[ci as int]
                                    },
                                );
                                assert(contexts_model(contexts@) =~= sem_step(
                                    st_pre,
                                    lns[i as int],
                                    names,
                                ).ctxs);
                            }
                        },
                        None => {
                        },
                    }
                }
            }
        }
        i += 1;
    }
    proof {
        assert(lns.take(lns.len() as int) =~= lns);
    }
}

} // verus!

//! Ghost models of the library's data: key events, semantic action
//! trees and contexts as pure mathematical values (sequences of
//! characters instead of heap strings), together with the
//! association-list operations the contracts are stated over.

use vstd::prelude::*;

use crate::contexts::KeyState;

verus! {

/// The mathematical value of a key event.
pub ghost struct EventModel {
    pub key: Seq<char>,
    pub code: int,
    pub state: KeyState,
    pub shift: bool,
    pub ctrl: bool,
    pub alt: bool,
    pub meta: bool,
    pub func: bool,
    pub modifier_down_only: bool,
}

/// The mathematical value of a semantic action tree.
pub ghost enum ActionModel {
    Sequence(Seq<ActionModel>),
    Action(Seq<char>),
    KeyEvent(EventModel),
    LiteralString(Seq<char>),
}

/// The mathematical value of a context record.
pub ghost struct CtxModel {
    pub name: Seq<char>,
    pub aliases: Seq<Seq<char>>,
    pub parent: Option<Seq<char>>,
    pub semantic_actions: Seq<(Seq<char>, ActionModel)>,
    pub key_mappings: Seq<(Seq<char>, ActionModel)>,
}

/// First-match lookup in an association list.
pub open spec fn assoc_lookup<K, V>(s: Seq<(K, V)>, key: K) -> Option<V>
    decreases s.len(),
{
    if s.len() == 0 {
        None
    } else if s[0].0 == key {
        Some(s[0].1)
    } else {
        assoc_lookup(s.skip(1), key)
    }
}

/// Insertion in an association list: replaces the first entry with
/// the given key, or appends a new entry at the end.
pub open spec fn assoc_insert<K, V>(s: Seq<(K, V)>, key: K, v: V) -> Seq<(K, V)>
    decreases s.len(),
{
    if s.len() == 0 {
        seq![(key, v)]
    } else if s[0].0 == key {
        seq![(key, v)] + s.skip(1)
    } else {
        seq![s[0]] + assoc_insert(s.skip(1), key, v)
    }
}

/// Lookup finds the entry at the first index whose key matches.
pub proof fn lemma_assoc_lookup_at<K, V>(s: Seq<(K, V)>, key: K, i: int)
    requires
        0 <= i < s.len(),
        s[i].0 == key,
        forall|j: int| 0 <= j < i ==> s[j].0 != key,
    ensures
        assoc_lookup(s, key) == Some(s[i].1),
    decreases i,
{
    if i > 0 {
        lemma_assoc_lookup_at(s.skip(1), key, i - 1);
        assert(s.skip(1)[i - 1] == s[i]);
        assert(forall|j: int| 0 <= j < i - 1 ==> s.skip(1)[j] == s[j + 1]);
    }
}

/// Lookup finds nothing when no entry's key matches.
pub proof fn lemma_assoc_lookup_none<K, V>(s: Seq<(K, V)>, key: K)
    requires
        forall|j: int| 0 <= j < s.len() ==> s[j].0 != key,
    ensures
        assoc_lookup(s, key) is None,
    decreases s.len(),
{
    if s.len() > 0 {
        assert(forall|j: int| 0 <= j < s.skip(1).len() ==> s.skip(1)[j] == s[j + 1]);
        lemma_assoc_lookup_none(s.skip(1), key);
    }
}

/// Insertion overwrites in place at the first index whose key
/// matches.
pub proof fn lemma_assoc_insert_at<K, V>(s: Seq<(K, V)>, key: K, v: V, i: int)
    requires
        0 <= i < s.len(),
        s[i].0 == key,
        forall|j: int| 0 <= j < i ==> s[j].0 != key,
    ensures
        assoc_insert(s, key, v) == s.update(i, (key, v)),
    decreases i,
{
    if i == 0 {
        assert(assoc_insert(s, key, v) =~= s.update(0, (key, v)));
    } else {
        lemma_assoc_insert_at(s.skip(1), key, v, i - 1);
        assert(s.skip(1)[i - 1] == s[i]);
        assert(forall|j: int| 0 <= j < i - 1 ==> s.skip(1)[j] == s[j + 1]);
        assert(assoc_insert(s, key, v) == seq![s[0]] + assoc_insert(s.skip(1), key, v));
        assert(seq![s[0]] + s.skip(1).update(i - 1, (key, v)) =~= s.update(i, (key, v)));
    }
}

/// Insertion appends at the end when no entry's key matches.
pub proof fn lemma_assoc_insert_push<K, V>(s: Seq<(K, V)>, key: K, v: V)
    requires
        forall|j: int| 0 <= j < s.len() ==> s[j].0 != key,
    ensures
        assoc_insert(s, key, v) == s.push((key, v)),
    decreases s.len(),
{
    if s.len() == 0 {
        assert(assoc_insert(s, key, v) =~= s.push((key, v)));
    } else {
        assert(forall|j: int| 0 <= j < s.skip(1).len() ==> s.skip(1)[j] == s[j + 1]);
        lemma_assoc_insert_push(s.skip(1), key, v);
        assert(seq![s[0]] + s.skip(1).push((key, v)) =~= s.push((key, v)));
    }
}

} // verus!

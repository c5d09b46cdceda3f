//! Mathematical model of the value store and of the engine's traversal
//! state, together with the lemmas that the executable code is proved
//! against.
//!
//! The store is modelled as a sequence of entries sorted strictly by key in
//! lexicographic order; each entry carries the queue of values that arrived
//! under its key, in arrival order.

use vstd::prelude::*;
use crate::order::{lex_lt, lemma_lex_trichotomy, lemma_lex_transitive};

verus! {

/// One key of the store with its queue of values, oldest first.
pub struct EntryModel {
    pub key: Seq<char>,
    pub values: Seq<Seq<char>>,
}

/// The whole state of a decode: the remaining store entries and the two
/// single-depth scope guards.
pub struct EngineModel {
    pub entries: Seq<EntryModel>,
    pub in_map: bool,
    pub in_sequence: bool,
}

/// The store invariant: keys strictly sorted (hence unique) and every queue
/// non-empty.
pub open spec fn entries_wf(entries: Seq<EntryModel>) -> bool {
    &&& forall|i: int, j: int|
        0 <= i < j < entries.len() ==> #[trigger] lex_lt(entries[i].key, entries[j].key)
    &&& forall|i: int| 0 <= i < entries.len() ==> #[trigger] entries[i].values.len() > 0
}

/// Append value `v` under key `k`: grow the queue of the entry holding `k`,
/// or place a fresh entry at the key's sorted position.
pub open spec fn insert_kv(entries: Seq<EntryModel>, k: Seq<char>, v: Seq<char>) -> Seq<
    EntryModel,
>
    decreases entries.len(),
{
    if entries.len() == 0 {
        seq![EntryModel { key: k, values: seq![v] }]
    } else if entries[0].key == k {
        seq![EntryModel { key: k, values: entries[0].values.push(v) }] + entries.drop_first()
    } else if lex_lt(k, entries[0].key) {
        seq![EntryModel { key: k, values: seq![v] }] + entries
    } else {
        seq![entries[0]] + insert_kv(entries.drop_first(), k, v)
    }
}

/// The store built from a pair list, by inserting each pair in turn.
pub open spec fn store_of(pairs: Seq<(Seq<char>, Seq<char>)>) -> Seq<EntryModel>
    decreases pairs.len(),
{
    if pairs.len() == 0 {
        Seq::<EntryModel>::empty()
    } else {
        insert_kv(store_of(pairs.drop_last()), pairs.last().0, pairs.last().1)
    }
}

/// The queue stored under key `k`; empty if the key is absent.
pub open spec fn lookup(entries: Seq<EntryModel>, k: Seq<char>) -> Seq<Seq<char>>
    decreases entries.len(),
{
    if entries.len() == 0 {
        Seq::<Seq<char>>::empty()
    } else if entries[0].key == k {
        entries[0].values
    } else {
        lookup(entries.drop_first(), k)
    }
}

/// Some entry holds key `k`.
pub open spec fn has_key(entries: Seq<EntryModel>, k: Seq<char>) -> bool {
    exists|i: int| 0 <= i < entries.len() && #[trigger] entries[i].key == k
}

/// The values a pair list carries under key `k`, in arrival order.
pub open spec fn values_for(pairs: Seq<(Seq<char>, Seq<char>)>, k: Seq<char>) -> Seq<Seq<char>>
    decreases pairs.len(),
{
    if pairs.len() == 0 {
        Seq::<Seq<char>>::empty()
    } else if pairs.last().0 == k {
        values_for(pairs.drop_last(), k).push(pairs.last().1)
    } else {
        values_for(pairs.drop_last(), k)
    }
}

/// The views of a list of string pairs.
pub open spec fn pairs_view(pairs: Seq<(String, String)>) -> Seq<(Seq<char>, Seq<char>)> {
    pairs.map_values(|p: (String, String)| (p.0@, p.1@))
}

/// Inserting a pair updates exactly the queue of its key, keeps the store
/// sorted, and leaves every other queue alone.
pub proof fn lemma_insert_kv_props(entries: Seq<EntryModel>, k: Seq<char>, v: Seq<char>)
    requires
        entries_wf(entries),
    ensures
        entries_wf(insert_kv(entries, k, v)),
        lookup(insert_kv(entries, k, v), k) == lookup(entries, k).push(v),
        forall|k2: Seq<char>|
            k2 != k ==> #[trigger] lookup(insert_kv(entries, k, v), k2) == lookup(entries, k2),
        forall|i: int|
            0 <= i < insert_kv(entries, k, v).len() ==> #[trigger] insert_kv(entries, k, v)[i].key
                == k || has_key(entries, insert_kv(entries, k, v)[i].key),
        insert_kv(entries, k, v).len() >= 1,
        entries.len() <= insert_kv(entries, k, v).len() <= entries.len() + 1,
    decreases entries.len(),
{
    let r = insert_kv(entries, k, v);
    if entries.len() == 0 {
        assert(lookup(entries, k).push(v) =~= seq![v]);
        assert(lookup(r, k) == seq![v]);
        assert forall|k2: Seq<char>| k2 != k implies #[trigger] lookup(r, k2) == lookup(
            entries,
            k2,
        ) by {
            assert(r.drop_first() =~= Seq::<EntryModel>::empty());
            assert(lookup(r, k2) == lookup(r.drop_first(), k2));
            assert(lookup(Seq::<EntryModel>::empty(), k2) == Seq::<Seq<char>>::empty());
        }
    } else if entries[0].key == k {
        let head = EntryModel { key: k, values: entries[0].values.push(v) };
        assert(r == seq![head] + entries.drop_first());
        assert(r[0] == head);
        assert(r.drop_first() =~= entries.drop_first());
        assert forall|i: int, j: int| 0 <= i < j < r.len() implies #[trigger] lex_lt(
            r[i].key,
            r[j].key,
        ) by {
            assert(r[j] == entries[j]);
            if i > 0 {
                assert(r[i] == entries[i]);
            }
        }
        assert forall|i: int| 0 <= i < r.len() implies #[trigger] r[i].values.len() > 0 by {
            if i > 0 {
                assert(r[i] == entries[i]);
            }
        }
        assert forall|k2: Seq<char>| k2 != k implies #[trigger] lookup(r, k2) == lookup(
            entries,
            k2,
        ) by {
            assert(lookup(r, k2) == lookup(r.drop_first(), k2));
        }
        assert forall|i: int| 0 <= i < r.len() implies #[trigger] r[i].key == k || has_key(
            entries,
            r[i].key,
        ) by {
            if i > 0 {
                assert(r[i] == entries[i]);
                assert(has_key(entries, entries[i].key));
            }
        }
    } else if lex_lt(k, entries[0].key) {
        let head = EntryModel { key: k, values: seq![v] };
        assert(r == seq![head] + entries);
        assert(r.drop_first() =~= entries);
        assert forall|i: int, j: int| 0 <= i < j < r.len() implies #[trigger] lex_lt(
            r[i].key,
            r[j].key,
        ) by {
            assert(r[j] == entries[j - 1]);
            if i > 0 {
                assert(r[i] == entries[i - 1]);
            } else {
                if j > 1 {
                    lemma_lex_transitive(k, entries[0].key, entries[j - 1].key);
                }
            }
        }
        assert forall|i: int| 0 <= i < r.len() implies #[trigger] r[i].values.len() > 0 by {
            if i > 0 {
                assert(r[i] == entries[i - 1]);
            }
        }
        assert(!has_key(entries, k)) by {
            assert forall|i: int| 0 <= i < entries.len() implies #[trigger] entries[i].key
                != k by {
                if i > 0 {
                    lemma_lex_transitive(k, entries[0].key, entries[i].key);
                }
                lemma_lex_trichotomy(k, entries[i].key);
            }
        }
        assert(lookup(entries, k).push(v) =~= seq![v]) by {
            lemma_lookup_absent(entries, k);
        }
        assert forall|i: int| 0 <= i < r.len() implies #[trigger] r[i].key == k || has_key(
            entries,
            r[i].key,
        ) by {
            if i > 0 {
                assert(r[i] == entries[i - 1]);
                assert(has_key(entries, entries[i - 1].key));
            }
        }
    } else {
        lemma_lex_trichotomy(k, entries[0].key);
        let head = entries[0];
        let tail = entries.drop_first();
        assert(entries_wf(tail)) by {
            assert(forall|i: int|
                0 <= i < tail.len() ==> tail[i] == #[trigger] entries[i + 1]);
        }
        lemma_insert_kv_props(tail, k, v);
        let rt = insert_kv(tail, k, v);
        assert(r == seq![head] + rt);
        assert(r.drop_first() =~= rt);
        assert forall|i: int, j: int| 0 <= i < j < r.len() implies #[trigger] lex_lt(
            r[i].key,
            r[j].key,
        ) by {
            assert(r[j] == rt[j - 1]);
            if i > 0 {
                assert(r[i] == rt[i - 1]);
            } else {
                assert(r[0] == head);
                if rt[j - 1].key == k {
                    assert(lex_lt(head.key, k));
                } else {
                    let w = choose|w: int| 0 <= w < tail.len() && #[trigger] tail[w].key == rt[j
                        - 1].key;
                    assert(tail[w] == entries[w + 1]);
                    assert(lex_lt(entries[0].key, entries[w + 1].key));
                }
            }
        }
        assert forall|i: int| 0 <= i < r.len() implies #[trigger] r[i].values.len() > 0 by {
            if i > 0 {
                assert(r[i] == rt[i - 1]);
            }
        }
        assert(lookup(r, k) == lookup(rt, k));
        assert(lookup(entries, k) == lookup(tail, k));
        assert forall|k2: Seq<char>| k2 != k implies #[trigger] lookup(r, k2) == lookup(
            entries,
            k2,
        ) by {
            assert(lookup(rt, k2) == lookup(tail, k2));
            if k2 == head.key {
                assert(lookup(r, k2) == head.values);
                assert(lookup(entries, k2) == head.values);
            } else {
                assert(lookup(r, k2) == lookup(r.drop_first(), k2));
                assert(lookup(entries, k2) == lookup(tail, k2));
            }
        }
        assert forall|i: int| 0 <= i < r.len() implies #[trigger] r[i].key == k || has_key(
            entries,
            r[i].key,
        ) by {
            if i == 0 {
                assert(entries[0].key == r[0].key);
            } else {
                assert(r[i] == rt[i - 1]);
                if rt[i - 1].key != k {
                    let w = choose|w: int| 0 <= w < tail.len() && #[trigger] tail[w].key == rt[i
                        - 1].key;
                    assert(tail[w] == entries[w + 1]);
                    assert(entries[w + 1].key == r[i].key);
                }
            }
        }
    }
}

/// Inserting a pair whose sorted position is `i` updates the entry there if
/// it already holds the key, and otherwise places a fresh entry at `i`.
pub proof fn lemma_insert_kv_at(entries: Seq<EntryModel>, k: Seq<char>, v: Seq<char>, i: int)
    requires
        entries_wf(entries),
        0 <= i <= entries.len(),
        forall|j: int| 0 <= j < i ==> lex_lt(#[trigger] entries[j].key, k),
        i < entries.len() ==> !lex_lt(entries[i].key, k),
    ensures
        insert_kv(entries, k, v) == if i < entries.len() && entries[i].key == k {
            entries.update(i, EntryModel { key: k, values: entries[i].values.push(v) })
        } else {
            entries.insert(i, EntryModel { key: k, values: seq![v] })
        },
    decreases entries.len(),
{
    if i == 0 {
        if entries.len() == 0 {
            assert(insert_kv(entries, k, v) =~= entries.insert(
                0,
                EntryModel { key: k, values: seq![v] },
            ));
        } else if entries[0].key == k {
            assert(insert_kv(entries, k, v) =~= entries.update(
                0,
                EntryModel { key: k, values: entries[0].values.push(v) },
            ));
        } else {
            lemma_lex_trichotomy(k, entries[0].key);
            assert(lex_lt(k, entries[0].key));
            assert(insert_kv(entries, k, v) =~= entries.insert(
                0,
                EntryModel { key: k, values: seq![v] },
            ));
        }
    } else {
        let head = entries[0];
        let tail = entries.drop_first();
        assert(lex_lt(entries[0].key, k));
        lemma_lex_trichotomy(k, entries[0].key);
        assert(entries_wf(tail)) by {
            assert(forall|w: int| 0 <= w < tail.len() ==> tail[w] == #[trigger] entries[w + 1]);
        }
        assert(forall|j: int| 0 <= j < i - 1 ==> lex_lt(#[trigger] tail[j].key, k)) by {
            assert(forall|w: int| 0 <= w < tail.len() ==> tail[w] == #[trigger] entries[w + 1]);
        }
        assert(i - 1 < tail.len() ==> !lex_lt(tail[i - 1].key, k)) by {
            assert(forall|w: int| 0 <= w < tail.len() ==> tail[w] == #[trigger] entries[w + 1]);
        }
        lemma_insert_kv_at(tail, k, v, i - 1);
        assert(insert_kv(entries, k, v) == seq![head] + insert_kv(tail, k, v));
        if i < entries.len() && entries[i].key == k {
            assert(tail[i - 1] == entries[i]);
            assert(seq![head] + tail.update(
                i - 1,
                EntryModel { key: k, values: entries[i].values.push(v) },
            ) =~= entries.update(i, EntryModel { key: k, values: entries[i].values.push(v) }));
        } else {
            if i < entries.len() {
                assert(tail[i - 1] == entries[i]);
            }
            assert(seq![head] + tail.insert(i - 1, EntryModel { key: k, values: seq![v] })
                =~= entries.insert(i, EntryModel { key: k, values: seq![v] }));
        }
    }
}

/// The value the next take returns: the front of the first key's queue.
pub open spec fn take_unit_value(m: EngineModel) -> Seq<char> {
    m.entries[0].values[0]
}

/// The state after one take: the front value leaves its queue; an exhausted
/// queue takes its key with it and ends any active sequence scope.
pub open spec fn take_unit_next(m: EngineModel) -> EngineModel {
    if m.entries[0].values.len() == 1 {
        EngineModel { entries: m.entries.drop_first(), in_sequence: false, ..m }
    } else {
        EngineModel {
            entries: m.entries.update(
                0,
                EntryModel { key: m.entries[0].key, values: m.entries[0].values.drop_first() },
            ),
            ..m
        }
    }
}

/// A record scope may begin only while none is active.
pub open spec fn record_can_begin(m: EngineModel) -> bool {
    !m.in_map
}

/// The state with the record scope active.
pub open spec fn record_begun(m: EngineModel) -> EngineModel {
    EngineModel { in_map: true, ..m }
}

/// The state with the record scope released.
pub open spec fn record_ended(m: EngineModel) -> EngineModel {
    EngineModel { in_map: false, ..m }
}

/// A sequence scope may begin only while none is active.
pub open spec fn sequence_can_begin(m: EngineModel) -> bool {
    !m.in_sequence
}

/// The state with the sequence scope active.
pub open spec fn sequence_begun(m: EngineModel) -> EngineModel {
    EngineModel { in_sequence: true, ..m }
}

/// A sequence was drained to its end: taking its last value released the
/// scope, so the guard is clear again.
pub open spec fn sequence_fully_consumed(m: EngineModel) -> bool {
    !m.in_sequence
}

/// Optional values are representable only inside a record scope.
pub open spec fn optional_allowed(m: EngineModel) -> bool {
    m.in_map
}

/// Every key was consumed.
pub open spec fn store_consumed(m: EngineModel) -> bool {
    m.entries.len() == 0
}

/// A key no entry holds looks up to the empty queue.
pub proof fn lemma_lookup_absent(entries: Seq<EntryModel>, k: Seq<char>)
    requires
        !has_key(entries, k),
    ensures
        lookup(entries, k) == Seq::<Seq<char>>::empty(),
    decreases entries.len(),
{
    if entries.len() > 0 {
        assert(entries[0].key != k);
        let tail = entries.drop_first();
        assert(!has_key(tail, k)) by {
            assert(forall|i: int|
                0 <= i < tail.len() ==> tail[i] == #[trigger] entries[i + 1]);
        }
        lemma_lookup_absent(tail, k);
    }
}

/// Under the store invariant, a held key looks up to a non-empty queue.
pub proof fn lemma_lookup_present(entries: Seq<EntryModel>, k: Seq<char>)
    requires
        entries_wf(entries),
        has_key(entries, k),
    ensures
        lookup(entries, k).len() > 0,
    decreases entries.len(),
{
    if entries[0].key == k {
    } else {
        let tail = entries.drop_first();
        assert(forall|i: int| 0 <= i < tail.len() ==> tail[i] == #[trigger] entries[i + 1]);
        let w = choose|w: int| 0 <= w < entries.len() && #[trigger] entries[w].key == k;
        assert(tail[w - 1].key == k);
        lemma_lookup_present(tail, k);
    }
}

/// The built store is well formed.
pub proof fn lemma_store_of_wf(pairs: Seq<(Seq<char>, Seq<char>)>)
    ensures
        entries_wf(store_of(pairs)),
    decreases pairs.len(),
{
    if pairs.len() > 0 {
        lemma_store_of_wf(pairs.drop_last());
        lemma_insert_kv_props(store_of(pairs.drop_last()), pairs.last().0, pairs.last().1);
    }
}

/// The built store maps each key to exactly the values the input carried
/// under it, in arrival order.
pub proof fn lemma_store_of_lookup(pairs: Seq<(Seq<char>, Seq<char>)>, k: Seq<char>)
    ensures
        lookup(store_of(pairs), k) == values_for(pairs, k),
    decreases pairs.len(),
{
    if pairs.len() == 0 {
    } else {
        let prefix = pairs.drop_last();
        lemma_store_of_lookup(prefix, k);
        lemma_store_of_wf(prefix);
        lemma_insert_kv_props(store_of(prefix), pairs.last().0, pairs.last().1);
    }
}

} // verus!

//! The value store: an ordered mapping from key to the queue of raw string
//! values that arrived under it, consumed destructively during a decode.

use std::collections::VecDeque;
use vstd::prelude::*;
use crate::error::Error;
use crate::model::{
    EngineModel, EntryModel, entries_wf, insert_kv, lemma_insert_kv_at, lemma_store_of_wf,
    pairs_view, store_of, take_unit_next, take_unit_value,
};
use crate::order::{lex_less, lex_lt};

verus! {

/// One key with the queue of values that arrived under it, oldest first.
pub struct Entry {
    pub key: String,
    pub values: VecDeque<String>,
}

/// The views of the strings in a queue.
pub open spec fn queue_view(values: Seq<String>) -> Seq<Seq<char>> {
    values.map_values(|s: String| s@)
}

impl View for Entry {
    type V = EntryModel;

    open spec fn view(&self) -> EntryModel {
        EntryModel { key: self.key@, values: queue_view(self.values@) }
    }
}

/// The views of a list of entries.
pub open spec fn entries_view(entries: Seq<Entry>) -> Seq<EntryModel> {
    entries.map_values(|e: Entry| e@)
}

/// The decoding engine: the value store plus the two scope guards.
///
/// Built once per decode from the input pairs, then consumed destructively
/// while a generic decode routine drives the traversal.
pub struct Deserializer {
    pub(crate) entries: Vec<Entry>,
    pub(crate) in_map: bool,
    pub(crate) in_sequence: bool,
}

impl View for Deserializer {
    type V = EngineModel;

    open(crate) spec fn view(&self) -> EngineModel {
        EngineModel {
            entries: entries_view(self.entries@),
            in_map: self.in_map,
            in_sequence: self.in_sequence,
        }
    }
}

/// Append `v` to the queue of `k`, keeping the entries sorted by key.
fn push_pair(entries: &mut Vec<Entry>, k: String, v: String)
    requires
        entries_wf(entries_view(old(entries)@)),
    ensures
        entries_view(final(entries)@) == insert_kv(entries_view(old(entries)@), k@, v@),
{
    let ghost m0 = entries_view(entries@);
    let n = entries.len();
    let mut i: usize = 0;
    let mut placed = false;
    while i < n && !placed
        invariant
            i <= n,
            n == entries.len(),
            m0 == entries_view(entries@),
            forall|j: int| 0 <= j < i ==> lex_lt(#[trigger] m0[j].key, k@),
            placed ==> i < n && !lex_lt(m0[i as int].key, k@),
        decreases n - i + (if placed { 0int } else { 1int }),
    {
        assert(m0[i as int] == entries@[i as int]@);
        if lex_less(entries[i].key.as_str(), k.as_str()) {
            i = i + 1;
        } else {
            placed = true;
        }
    }
    assert(i < n ==> !lex_lt(m0[i as int].key, k@));
    proof {
        lemma_insert_kv_at(m0, k@, v@, i as int);
    }
    if i < n && entries[i].key == k {
        assert(m0[i as int] == entries@[i as int]@);
        let mut e = entries.remove(i);
        e.values.push_back(v);
        entries.insert(i, e);
        proof {
            assert(queue_view(e.values@) =~= m0[i as int].values.push(v@));
            assert(entries_view(entries@) =~= m0.update(
                i as int,
                EntryModel { key: k@, values: m0[i as int].values.push(v@) },
            ));
        }
    } else {
        let mut values = VecDeque::new();
        values.push_back(v);
        let e = Entry { key: k, values };
        entries.insert(i, e);
        proof {
            assert(queue_view(e.values@) =~= seq![v@]);
            assert(entries_view(entries@) =~= m0.insert(
                i as int,
                EntryModel { key: e.key@, values: seq![v@] },
            ));
        }
    }
}

impl Deserializer {
    /// The store invariant: keys strictly sorted and every queue non-empty.
    pub open spec fn wf(&self) -> bool {
        entries_wf(self@.entries)
    }

    /// Build the store from the input pairs: each value is appended to the
    /// queue of its key, in arrival order; keys end up sorted. Both scope
    /// guards start clear.
    pub fn from_key_values(input: Vec<(String, String)>) -> (d: Self)
        ensures
            d.wf(),
            d@.entries == store_of(pairs_view(input@)),
            !d@.in_map,
            !d@.in_sequence,
    {
        let mut entries: Vec<Entry> = Vec::new();
        let n = input.len();
        let mut i: usize = 0;
        proof {
            assert(entries_view(entries@) =~= store_of(pairs_view(input@).take(0)));
        }
        while i < n
            invariant
                i <= n,
                n == input.len(),
                entries_view(entries@) == store_of(pairs_view(input@).take(i as int)),
            decreases n - i,
        {
            let k = input[i].0.clone();
            let v = input[i].1.clone();
            proof {
                lemma_store_of_wf(pairs_view(input@).take(i as int));
                assert(pairs_view(input@).take(i + 1).drop_last() =~= pairs_view(input@).take(
                    i as int,
                ));
                assert(pairs_view(input@)[i as int] == (input@[i as int].0@, input@[i as int].1@));
            }
            push_pair(&mut entries, k, v);
            i = i + 1;
        }
        proof {
            assert(pairs_view(input@).take(n as int) =~= pairs_view(input@));
            lemma_store_of_wf(pairs_view(input@));
        }
        Deserializer { entries, in_map: false, in_sequence: false }
    }

    /// No key remains in the store.
    pub fn is_empty(&self) -> (r: bool)
        ensures
            r == (self@.entries.len() == 0),
    {
        self.entries.len() == 0
    }

    /// The record scope guard is set.
    pub fn record_active(&self) -> (r: bool)
        ensures
            r == self@.in_map,
    {
        self.in_map
    }

    /// The sequence scope guard is set.
    pub fn sequence_active(&self) -> (r: bool)
        ensures
            r == self@.in_sequence,
    {
        self.in_sequence
    }

    /// The next key the traversal reads: the lexicographically first key
    /// still in the store.
    pub fn current_key(&self) -> (r: Result<String, Error>)
        ensures
            match r {
                Ok(k) => self@.entries.len() > 0 && k@ == self@.entries[0].key,
                Err(e) => self@.entries.len() == 0 && e is MissingKey,
            },
    {
        if self.entries.len() == 0 {
            Err(Error::MissingKey)
        } else {
            assert(self@.entries[0] == self.entries@[0]@);
            Ok(self.entries[0].key.clone())
        }
    }

    /// The queue of values still waiting under the current key.
    pub fn current_values(&self) -> (r: Result<&VecDeque<String>, Error>)
        ensures
            match r {
                Ok(q) => self@.entries.len() > 0 && queue_view(q@) == self@.entries[0].values,
                Err(e) => self@.entries.len() == 0 && e is MissingValues,
            },
    {
        if self.entries.len() == 0 {
            Err(Error::MissingValues)
        } else {
            assert(self@.entries[0] == self.entries@[0]@);
            Ok(&self.entries[0].values)
        }
    }

    /// Pop the front value of the current key's queue. A queue that empties
    /// takes its key out of the store and releases any active sequence
    /// scope: a sequence ends exactly when its backing key is exhausted.
    pub fn next_unit(&mut self) -> (r: Result<String, Error>)
        requires
            old(self).wf(),
        ensures
            final(self).wf(),
            match r {
                Ok(v) => old(self)@.entries.len() > 0 && v@ == take_unit_value(old(self)@)
                    && final(self)@ == take_unit_next(old(self)@),
                Err(e) => old(self)@.entries.len() == 0 && e is MissingValues && *final(self)
                    == *old(self),
            },
    {
        let ghost m0 = self@;
        if self.entries.len() == 0 {
            return Err(Error::MissingValues);
        }
        assert(m0.entries[0] == self.entries@[0]@);
        let mut e = self.entries.remove(0);
        assert(m0.entries[0].values.len() > 0);
        let v = e.values.pop_front().unwrap();
        if e.values.len() == 0 {
            self.in_sequence = false;
            proof {
                assert(queue_view(e.values@).len() == 0);
                assert(m0.entries[0].values.len() == 1);
                assert(entries_view(self.entries@) =~= m0.entries.drop_first());
                assert(forall|w: int|
                    0 <= w < m0.entries.drop_first().len() ==> m0.entries.drop_first()[w]
                        == #[trigger] m0.entries[w + 1]);
            }
        } else {
            proof {
                assert(queue_view(e.values@) =~= m0.entries[0].values.drop_first());
            }
            self.entries.insert(0, e);
            proof {
                assert(entries_view(self.entries@) =~= m0.entries.update(
                    0,
                    EntryModel {
                        key: m0.entries[0].key,
                        values: m0.entries[0].values.drop_first(),
                    },
                ));
                assert forall|i: int, j: int|
                    0 <= i < j < self@.entries.len() implies #[trigger] lex_lt(
                    self@.entries[i].key,
                    self@.entries[j].key,
                ) by {
                    assert(self@.entries[j].key == m0.entries[j].key);
                    assert(self@.entries[i].key == m0.entries[i].key);
                }
            }
        }
        assert(v@ == m0.entries[0].values[0]);
        Ok(v)
    }
}

} // verus!

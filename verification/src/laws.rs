//! The guarantees of the decoder, stated over the model and proved once
//! and for all: round trips for unique and for repeated keys, the
//! single-depth scope rules, leftover-key detection, and numeric literal
//! round trips.

use vstd::prelude::*;
use crate::model::{
    EngineModel, entries_wf, has_key, lemma_insert_kv_props, lemma_lookup_absent,
    lemma_lookup_present, lemma_store_of_lookup, lemma_store_of_wf, lookup, record_begun,
    record_can_begin, sequence_begun, sequence_can_begin, store_consumed, store_of,
    take_unit_next, take_unit_value, values_for,
};
use crate::scalar::{
    all_dec_digits, digit_val, digits_val, int_body, int_literal_val, int_negative,
    is_dec_digit, signed_in_range, unsigned_in_range,
};

verus! {

/// Every key of the input appears exactly once.
pub open spec fn keys_distinct(pairs: Seq<(Seq<char>, Seq<char>)>) -> bool {
    forall|i: int, j: int|
        0 <= i < j < pairs.len() ==> (#[trigger] pairs[i]).0 != (#[trigger] pairs[j]).0
}

/// No pair of the input carries key `k`.
pub open spec fn key_absent(pairs: Seq<(Seq<char>, Seq<char>)>, k: Seq<char>) -> bool {
    forall|i: int| 0 <= i < pairs.len() ==> (#[trigger] pairs[i]).0 != k
}

/// An absent key carries no values.
pub proof fn lemma_values_for_absent(pairs: Seq<(Seq<char>, Seq<char>)>, k: Seq<char>)
    requires
        key_absent(pairs, k),
    ensures
        values_for(pairs, k) == Seq::<Seq<char>>::empty(),
    decreases pairs.len(),
{
    if pairs.len() > 0 {
        assert(key_absent(pairs.drop_last(), k)) by {
            assert(forall|i: int|
                0 <= i < pairs.len() - 1 ==> pairs.drop_last()[i] == #[trigger] pairs[i]);
        }
        lemma_values_for_absent(pairs.drop_last(), k);
    }
}

/// A key that appears once carries exactly its one value.
pub proof fn lemma_values_for_single(pairs: Seq<(Seq<char>, Seq<char>)>, i: int)
    requires
        keys_distinct(pairs),
        0 <= i < pairs.len(),
    ensures
        values_for(pairs, pairs[i].0) == seq![pairs[i].1],
    decreases pairs.len(),
{
    let k = pairs[i].0;
    if i == pairs.len() - 1 {
        assert(key_absent(pairs.drop_last(), k)) by {
            assert(forall|j: int|
                0 <= j < pairs.len() - 1 ==> pairs.drop_last()[j] == #[trigger] pairs[j]);
        }
        lemma_values_for_absent(pairs.drop_last(), k);
        assert(values_for(pairs, k) =~= seq![pairs[i].1]);
    } else {
        assert(pairs.last().0 != k);
        assert(keys_distinct(pairs.drop_last())) by {
            assert(forall|j: int|
                0 <= j < pairs.len() - 1 ==> pairs.drop_last()[j] == #[trigger] pairs[j]);
        }
        assert(pairs.drop_last()[i] == pairs[i]);
        lemma_values_for_single(pairs.drop_last(), i);
    }
}

/// A key the input carries ends up with at least one value.
pub proof fn lemma_values_for_present(pairs: Seq<(Seq<char>, Seq<char>)>, i: int)
    requires
        0 <= i < pairs.len(),
    ensures
        values_for(pairs, pairs[i].0).len() > 0,
    decreases pairs.len(),
{
    let k = pairs[i].0;
    if pairs.last().0 == k {
    } else {
        assert(i < pairs.len() - 1);
        assert(pairs.drop_last()[i] == pairs[i]);
        lemma_values_for_present(pairs.drop_last(), i);
    }
}

/// The store holds exactly the keys the input carried: none dropped and
/// none invented, so a key the target type never consumes stays behind and
/// is reported, and no other key can be.
pub proof fn lemma_store_keys_exact(pairs: Seq<(Seq<char>, Seq<char>)>, k: Seq<char>)
    ensures
        has_key(store_of(pairs), k) <==> !key_absent(pairs, k),
{
    lemma_store_of_wf(pairs);
    lemma_store_of_lookup(pairs, k);
    if !key_absent(pairs, k) {
        let i = choose|i: int| 0 <= i < pairs.len() && (#[trigger] pairs[i]).0 == k;
        lemma_values_for_present(pairs, i);
        if !has_key(store_of(pairs), k) {
            lemma_lookup_absent(store_of(pairs), k);
        }
    } else {
        lemma_values_for_absent(pairs, k);
        if has_key(store_of(pairs), k) {
            lemma_lookup_present(store_of(pairs), k);
        }
    }
}

/// Round trip for inputs whose keys each appear once: the store built from
/// such an input holds under each key exactly the value that arrived with
/// it, so taking the key's one unit returns that value unchanged.
pub proof fn lemma_unique_key_round_trip(pairs: Seq<(Seq<char>, Seq<char>)>, i: int)
    requires
        keys_distinct(pairs),
        0 <= i < pairs.len(),
    ensures
        lookup(store_of(pairs), pairs[i].0) == seq![pairs[i].1],
    decreases pairs.len(),
{
    lemma_store_of_lookup(pairs, pairs[i].0);
    lemma_values_for_single(pairs, i);
}

/// One step of draining the current key: the value taken and the state
/// left behind, iterated `n` times.
pub open spec fn drain_first(m: EngineModel, n: nat) -> (Seq<Seq<char>>, EngineModel)
    decreases n,
{
    if n == 0 {
        (Seq::<Seq<char>>::empty(), m)
    } else {
        let rest = drain_first(take_unit_next(m), (n - 1) as nat);
        (seq![take_unit_value(m)] + rest.0, rest.1)
    }
}

/// A sequence is exactly the repeated key's values, front to back: taking
/// as many units as the current key holds yields its queue in arrival
/// order, removes the key, and releases the sequence scope at precisely
/// the last unit.
pub proof fn lemma_drain_first_key(m: EngineModel)
    requires
        entries_wf(m.entries),
        m.entries.len() > 0,
    ensures
        ({
            let r = drain_first(m, m.entries[0].values.len());
            &&& r.0 == m.entries[0].values
            &&& r.1.entries == m.entries.drop_first()
            &&& r.1.in_sequence == false
            &&& r.1.in_map == m.in_map
        }),
    decreases m.entries[0].values.len(),
{
    let q = m.entries[0].values;
    let m2 = take_unit_next(m);
    if q.len() == 1 {
        assert(drain_first(m2, 0).0 == Seq::<Seq<char>>::empty());
        assert(drain_first(m2, 0).1 == m2);
        assert(drain_first(m, 1).0 == seq![take_unit_value(m)] + drain_first(m2, 0).0);
        assert(seq![q[0]] + Seq::<Seq<char>>::empty() =~= q);
    } else {
        assert(entries_wf(m2.entries)) by {
            assert(forall|i: int|
                0 <= i < m2.entries.len() && i != 0 ==> m2.entries[i] == #[trigger] m.entries[i]);
            assert(forall|i: int|
                0 <= i < m2.entries.len() ==> #[trigger] m2.entries[i].key == m.entries[i].key);
        }
        assert(m2.entries.len() > 0);
        assert(m2.entries[0].values == q.drop_first());
        lemma_drain_first_key(m2);
        let r2 = drain_first(m2, (q.len() - 1) as nat);
        assert(drain_first(m, q.len()).0 == seq![q[0]] + r2.0);
        assert(seq![q[0]] + q.drop_first() =~= q);
        assert(m2.entries.drop_first() =~= m.entries.drop_first());
    }
}

/// Decoding a sequence field round-trips the repeated key: draining the
/// current key of a store built from the input yields exactly the values
/// that arrived under that key — as many as the input carried, in arrival
/// order — and releases the sequence scope at the last one.
pub proof fn lemma_sequence_round_trip(pairs: Seq<(Seq<char>, Seq<char>)>, m: EngineModel)
    requires
        m.entries == store_of(pairs),
        m.entries.len() > 0,
    ensures
        ({
            let k = m.entries[0].key;
            let r = drain_first(m, values_for(pairs, k).len());
            &&& r.0 == values_for(pairs, k)
            &&& r.1.entries == m.entries.drop_first()
            &&& r.1.in_sequence == false
        }),
{
    lemma_store_of_wf(pairs);
    lemma_store_of_lookup(pairs, m.entries[0].key);
    assert(lookup(m.entries, m.entries[0].key) == m.entries[0].values);
    lemma_drain_first_key(m);
}

/// A record scope cannot be entered twice: once one is active, entering
/// again is refused.
pub proof fn lemma_record_scope_single_depth(m: EngineModel)
    ensures
        !record_can_begin(record_begun(m)),
{
}

/// A sequence scope cannot be entered twice: once one is active, entering
/// again is refused.
pub proof fn lemma_sequence_scope_single_depth(m: EngineModel)
    ensures
        !sequence_can_begin(sequence_begun(m)),
{
}

/// An input with any pair at all leaves a non-empty store, so a decode
/// that consumed none of it cannot pass the final check.
pub proof fn lemma_unconsumed_input_detected(pairs: Seq<(Seq<char>, Seq<char>)>)
    requires
        pairs.len() > 0,
    ensures
        store_of(pairs).len() > 0,
        !store_consumed(
            EngineModel { entries: store_of(pairs), in_map: false, in_sequence: false },
        ),
{
    lemma_store_of_wf(pairs.drop_last());
    lemma_insert_kv_props(store_of(pairs.drop_last()), pairs.last().0, pairs.last().1);
}

/// One decimal digit as a character.
pub open spec fn digit_char(d: int) -> char {
    if d == 0 {
        '0'
    } else if d == 1 {
        '1'
    } else if d == 2 {
        '2'
    } else if d == 3 {
        '3'
    } else if d == 4 {
        '4'
    } else if d == 5 {
        '5'
    } else if d == 6 {
        '6'
    } else if d == 7 {
        '7'
    } else if d == 8 {
        '8'
    } else {
        '9'
    }
}

/// The canonical decimal literal of a non-negative number: no sign, no
/// leading zero except for zero itself.
pub open spec fn dec_repr(n: int) -> Seq<char>
    recommends
        n >= 0,
    decreases n,
{
    if n < 10 {
        seq![digit_char(n)]
    } else {
        dec_repr(n / 10).push(digit_char(n % 10))
    }
}

proof fn lemma_digit_char_val(d: int)
    requires
        0 <= d <= 9,
    ensures
        is_dec_digit(digit_char(d)),
        digit_val(digit_char(d)) == d,
{
}

/// The canonical decimal literal of `n` is all digits and is worth `n`.
pub proof fn lemma_dec_repr_val(n: int)
    requires
        n >= 0,
    ensures
        dec_repr(n).len() > 0,
        all_dec_digits(dec_repr(n)),
        digits_val(dec_repr(n)) == n,
        is_dec_digit(dec_repr(n)[0]),
    decreases n,
{
    if n < 10 {
        lemma_digit_char_val(n);
        assert(dec_repr(n).drop_last() =~= Seq::<char>::empty());
        assert(digits_val(Seq::<char>::empty()) == 0);
        assert(dec_repr(n).last() == digit_char(n));
    } else {
        let q = n / 10;
        let d = n % 10;
        assert(0 <= d < 10 && q >= 1 && q < n && n == 10 * q + d) by (nonlinear_arith)
            requires
                n >= 10,
                q == n / 10,
                d == n % 10;
        lemma_dec_repr_val(q);
        lemma_digit_char_val(d);
        let s = dec_repr(n);
        assert(s == dec_repr(q).push(digit_char(d)));
        assert(s.drop_last() =~= dec_repr(q));
        assert(s.last() == digit_char(d));
        assert(all_dec_digits(s)) by {
            assert(forall|i: int|
                0 <= i < s.len() - 1 ==> s[i] == #[trigger] dec_repr(q)[i]);
        }
        assert(s[0] == dec_repr(q)[0]);
    }
}

/// Unsigned numeric round trip: the canonical literal of `n` is a valid
/// unsigned literal worth exactly `n`, so parsing it back yields `n`.
pub proof fn lemma_unsigned_literal_round_trip(n: u64)
    ensures
        unsigned_in_range(dec_repr(n as int), n as int),
        int_literal_val(dec_repr(n as int)) == n,
{
    lemma_dec_repr_val(n as int);
    let s = dec_repr(n as int);
    assert(is_dec_digit(s[0]));
    assert(s[0] != '+' && s[0] != '-');
    assert(int_body(s) == s);
}

/// The canonical literal of any signed number: the magnitude's digits,
/// behind a minus sign where it is negative.
pub open spec fn int_repr(n: int) -> Seq<char> {
    if n < 0 {
        seq!['-'] + dec_repr(-n)
    } else {
        dec_repr(n)
    }
}

/// Signed numeric round trip: the canonical literal of `n` is a valid
/// signed literal worth exactly `n`, so parsing it back yields `n`.
pub proof fn lemma_signed_literal_round_trip(n: i64)
    ensures
        signed_in_range(int_repr(n as int), n as int, n as int),
        int_literal_val(int_repr(n as int)) == n,
{
    if n < 0 {
        lemma_dec_repr_val(-(n as int));
        let s = int_repr(n as int);
        assert(s[0] == '-');
        assert(int_negative(s));
        assert(int_body(s) =~= dec_repr(-(n as int)));
    } else {
        lemma_dec_repr_val(n as int);
        let s = dec_repr(n as int);
        assert(is_dec_digit(s[0]));
        assert(s[0] != '+' && s[0] != '-');
        assert(int_body(s) == s);
    }
}

} // verus!

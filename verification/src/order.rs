//! Lexicographic order on strings, used to keep the value store's keys
//! sorted so that traversal is deterministic.

use vstd::prelude::*;

verus! {

/// `a` comes strictly before `b` in lexicographic order, comparing Unicode
/// scalar values position by position; a proper prefix comes first.
pub open spec fn lex_lt(a: Seq<char>, b: Seq<char>) -> bool
    decreases a.len(),
{
    if b.len() == 0 {
        false
    } else if a.len() == 0 {
        true
    } else if a[0] != b[0] {
        a[0] < b[0]
    } else {
        lex_lt(a.drop_first(), b.drop_first())
    }
}

/// Exactly one of `lex_lt(a, b)`, `a == b`, `lex_lt(b, a)` holds.
pub proof fn lemma_lex_trichotomy(a: Seq<char>, b: Seq<char>)
    ensures
        lex_lt(a, b) || lex_lt(b, a) || a == b,
        lex_lt(a, b) ==> !lex_lt(b, a) && a != b,
        lex_lt(b, a) ==> !lex_lt(a, b) && a != b,
    decreases a.len(),
{
    if a.len() == 0 || b.len() == 0 {
        if a.len() == 0 && b.len() == 0 {
            assert(a =~= b);
        }
    } else if a[0] != b[0] {
    } else {
        lemma_lex_trichotomy(a.drop_first(), b.drop_first());
        if a.drop_first() == b.drop_first() {
            assert forall|i: int| 0 <= i < a.len() implies a[i] == b[i] by {
                if i > 0 {
                    assert(a[i] == a.drop_first()[i - 1]);
                    assert(b[i] == b.drop_first()[i - 1]);
                }
            }
            assert(a =~= b);
        }
        if a == b {
            assert(a.drop_first() =~= b.drop_first());
        }
    }
}

/// Lexicographic order is transitive.
pub proof fn lemma_lex_transitive(a: Seq<char>, b: Seq<char>, c: Seq<char>)
    requires
        lex_lt(a, b),
        lex_lt(b, c),
    ensures
        lex_lt(a, c),
    decreases a.len(),
{
    if a.len() == 0 {
    } else if b.len() == 0 {
    } else if c.len() == 0 {
    } else {
        if a[0] == b[0] && b[0] == c[0] {
            lemma_lex_transitive(a.drop_first(), b.drop_first(), c.drop_first());
        }
    }
}

/// Does `a` come strictly before `b` in lexicographic order?
pub fn lex_less(a: &str, b: &str) -> (r: bool)
    ensures
        r == lex_lt(a@, b@),
{
    let a_len = a.unicode_len();
    let b_len = b.unicode_len();
    let mut i: usize = 0;
    proof {
        assert(a@.skip(0) =~= a@);
        assert(b@.skip(0) =~= b@);
    }
    loop
        invariant
            i <= a_len,
            i <= b_len,
            a_len == a@.len(),
            b_len == b@.len(),
            lex_lt(a@, b@) == lex_lt(a@.skip(i as int), b@.skip(i as int)),
            forall|j: int| 0 <= j < i ==> a@[j] == b@[j],
        decreases a_len - i,
    {
        if i == b_len {
            return false;
        }
        if i == a_len {
            return true;
        }
        let ca = a.get_char(i);
        let cb = b.get_char(i);
        if ca != cb {
            return ca < cb;
        }
        proof {
            assert(a@.skip(i as int).drop_first() =~= a@.skip(i + 1));
            assert(b@.skip(i as int).drop_first() =~= b@.skip(i + 1));
        }
        i = i + 1;
    }
}

} // verus!

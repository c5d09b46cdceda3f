//! Scalar parsing: boolean and integer literals in their conventional
//! textual form, with exact success and failure conditions.

use vstd::prelude::*;
use crate::error::Error;
use crate::model::{take_unit_next, take_unit_value};
use crate::store::Deserializer;

verus! {

/// A decimal digit.
pub open spec fn is_dec_digit(c: char) -> bool {
    '0' <= c && c <= '9'
}

/// The numeric value of a decimal digit.
pub open spec fn digit_val(c: char) -> int {
    c as u32 - '0' as u32
}

/// Every character is a decimal digit.
pub open spec fn all_dec_digits(s: Seq<char>) -> bool {
    forall|i: int| 0 <= i < s.len() ==> is_dec_digit(#[trigger] s[i])
}

/// The value of a digit string, most significant digit first.
pub open spec fn digits_val(s: Seq<char>) -> int
    decreases s.len(),
{
    if s.len() == 0 {
        0
    } else {
        10 * digits_val(s.drop_last()) + digit_val(s.last())
    }
}

/// The digits of an integer literal: everything after an optional sign.
pub open spec fn int_body(s: Seq<char>) -> Seq<char> {
    if s.len() > 0 && (s[0] == '+' || s[0] == '-') {
        s.drop_first()
    } else {
        s
    }
}

/// The literal carries a minus sign.
pub open spec fn int_negative(s: Seq<char>) -> bool {
    s.len() > 0 && s[0] == '-'
}

/// An integer literal in the conventional form: an optional `+` or `-`
/// sign, then one or more decimal digits and nothing else.
pub open spec fn int_literal_valid(s: Seq<char>) -> bool {
    int_body(s).len() > 0 && all_dec_digits(int_body(s))
}

/// The signed value of a valid integer literal.
pub open spec fn int_literal_val(s: Seq<char>) -> int {
    if int_negative(s) {
        -digits_val(int_body(s))
    } else {
        digits_val(int_body(s))
    }
}

/// `s` parses as an unsigned integer no greater than `max`.
pub open spec fn unsigned_in_range(s: Seq<char>, max: int) -> bool {
    &&& int_literal_valid(s)
    &&& !int_negative(s)
    &&& int_literal_val(s) <= max
}

/// `s` parses as a signed integer within `min ..= max`.
pub open spec fn signed_in_range(s: Seq<char>, min: int, max: int) -> bool {
    &&& int_literal_valid(s)
    &&& min <= int_literal_val(s) <= max
}

/// The complaint an unsigned parse raises on `s`, assuming it fails.
pub open spec fn unsigned_err_msg(s: Seq<char>) -> Seq<char> {
    if s.len() == 0 {
        "cannot parse integer from empty string"@
    } else if !int_literal_valid(s) || int_negative(s) {
        "invalid digit found in string"@
    } else {
        "number too large to fit in target type"@
    }
}

/// The complaint a signed parse raises on `s`, assuming it fails.
pub open spec fn signed_err_msg(s: Seq<char>, min: int, max: int) -> Seq<char> {
    if s.len() == 0 {
        "cannot parse integer from empty string"@
    } else if !int_literal_valid(s) {
        "invalid digit found in string"@
    } else if int_literal_val(s) > max {
        "number too large to fit in target type"@
    } else {
        "number too small to fit in target type"@
    }
}

/// A valid digit string has a non-negative value.
pub proof fn lemma_digits_val_nonneg(s: Seq<char>)
    requires
        all_dec_digits(s),
    ensures
        digits_val(s) >= 0,
    decreases s.len(),
{
    if s.len() > 0 {
        assert(all_dec_digits(s.drop_last())) by {
            assert(forall|i: int|
                0 <= i < s.len() - 1 ==> s.drop_last()[i] == #[trigger] s[i]);
        }
        lemma_digits_val_nonneg(s.drop_last());
        assert(is_dec_digit(s.last()));
    }
}

/// A digit string is worth at least any of its prefixes.
pub proof fn lemma_digits_val_prefix_le(s: Seq<char>, i: int)
    requires
        all_dec_digits(s),
        0 <= i <= s.len(),
    ensures
        digits_val(s.take(i)) <= digits_val(s),
    decreases s.len(),
{
    if i == s.len() {
        assert(s.take(i) =~= s);
    } else {
        assert(all_dec_digits(s.drop_last())) by {
            assert(forall|j: int|
                0 <= j < s.len() - 1 ==> s.drop_last()[j] == #[trigger] s[j]);
        }
        assert(s.take(i) =~= s.drop_last().take(i));
        lemma_digits_val_prefix_le(s.drop_last(), i);
        lemma_digits_val_nonneg(s.drop_last());
        assert(is_dec_digit(s.last()));
    }
}

/// Are the characters of `s` from `start` onward all decimal digits?
fn all_digits_from(s: &str, start: usize) -> (r: bool)
    requires
        start <= s@.len(),
    ensures
        r == all_dec_digits(s@.skip(start as int)),
{
    let len = s.unicode_len();
    let mut i: usize = start;
    while i < len
        invariant
            start <= i <= len,
            len == s@.len(),
            forall|j: int| start <= j < i ==> is_dec_digit(#[trigger] s@[j]),
        decreases len - i,
    {
        let c = s.get_char(i);
        if c < '0' || c > '9' {
            assert(s@.skip(start as int)[i - start] == s@[i as int]);
            return false;
        }
        i = i + 1;
    }
    assert forall|j: int| 0 <= j < s@.skip(start as int).len() implies is_dec_digit(
        #[trigger] s@.skip(start as int)[j],
    ) by {
        assert(s@.skip(start as int)[j] == s@[j + start]);
    }
    true
}

/// The value of the digit run of `s` from `start` onward, unless it
/// exceeds `limit`.
fn digits_to_u64(s: &str, start: usize, limit: u64) -> (r: Option<u64>)
    requires
        start < s@.len(),
        all_dec_digits(s@.skip(start as int)),
    ensures
        match r {
            Some(v) => v == digits_val(s@.skip(start as int)) && v <= limit,
            None => digits_val(s@.skip(start as int)) > limit,
        },
{
    let ghost body = s@.skip(start as int);
    let len = s.unicode_len();
    let mut acc: u64 = 0;
    let mut i: usize = start;
    proof {
        assert(body.take(0) =~= Seq::<char>::empty());
    }
    while i < len
        invariant
            start <= i <= len,
            len == s@.len(),
            body == s@.skip(start as int),
            all_dec_digits(body),
            acc == digits_val(body.take(i - start)),
            acc <= limit,
        decreases len - i,
    {
        let c = s.get_char(i);
        assert(body[i - start] == s@[i as int]);
        assert(is_dec_digit(c));
        let d: u64 = (c as u32 - '0' as u32) as u64;
        assert(d == digit_val(c) && d <= 9);
        proof {
            assert(body.take(i - start + 1).drop_last() =~= body.take(i - start));
            assert(body.take(i - start + 1).last() == body[i - start]);
        }
        let ghost q: int = limit as int / 10;
        let ghost m: int = limit as int % 10;
        proof {
            assert(limit == 10 * q + m && 0 <= m < 10) by (nonlinear_arith)
                requires
                    q == limit as int / 10,
                    m == limit as int % 10,
                    limit >= 0;
        }
        if acc > limit / 10 || (acc == limit / 10 && d > limit % 10) {
            proof {
                assert(10 * (acc as int) + d > limit) by {
                    if (acc as int) > q {
                        assert(10 * (acc as int) >= 10 * (q + 1)) by (nonlinear_arith)
                            requires
                                acc as int >= q + 1;
                    }
                }
                lemma_digits_val_prefix_le(body, i - start + 1);
            }
            return None;
        }
        proof {
            assert(10 * (acc as int) + d <= limit) by {
                if (acc as int) < q {
                    assert(10 * (acc as int) <= 10 * (q - 1)) by (nonlinear_arith)
                        requires
                            acc as int <= q - 1;
                }
            }
        }
        acc = acc * 10 + d;
        i = i + 1;
    }
    proof {
        assert(body.take(len - start) =~= body);
    }
    Some(acc)
}

/// Parse an unsigned integer literal worth at most `max`: an optional
/// leading `+`, then decimal digits. Exactly the inputs outside that form
/// or above `max` fail, each with its conventional complaint.
pub fn parse_unsigned(s: &str, max: u64) -> (r: Result<u64, Error>)
    ensures
        match r {
            Ok(v) => unsigned_in_range(s@, max as int) && v == int_literal_val(s@),
            Err(e) => !unsigned_in_range(s@, max as int) && (e matches Error::Message(m)
                && m@ == unsigned_err_msg(s@)),
        },
{
    let len = s.unicode_len();
    if len == 0 {
        return Err(Error::Message("cannot parse integer from empty string".to_owned()));
    }
    let c0 = s.get_char(0);
    if c0 == '-' {
        return Err(Error::Message("invalid digit found in string".to_owned()));
    }
    let start: usize = if c0 == '+' {
        1
    } else {
        0
    };
    proof {
        assert(int_body(s@) =~= s@.skip(start as int));
    }
    if start >= len {
        return Err(Error::Message("invalid digit found in string".to_owned()));
    }
    if !all_digits_from(s, start) {
        return Err(Error::Message("invalid digit found in string".to_owned()));
    }
    match digits_to_u64(s, start, max) {
        Some(v) => Ok(v),
        None => Err(Error::Message("number too large to fit in target type".to_owned())),
    }
}

/// Parse a signed integer literal within `min ..= max`: an optional sign,
/// then decimal digits. Exactly the inputs outside that form or range
/// fail, each with its conventional complaint.
pub fn parse_signed(s: &str, min: i64, max: i64) -> (r: Result<i64, Error>)
    requires
        min <= 0 <= max,
    ensures
        match r {
            Ok(v) => signed_in_range(s@, min as int, max as int) && v == int_literal_val(s@),
            Err(e) => !signed_in_range(s@, min as int, max as int) && (e
                matches Error::Message(m) && m@ == signed_err_msg(s@, min as int, max as int)),
        },
{
    let len = s.unicode_len();
    if len == 0 {
        return Err(Error::Message("cannot parse integer from empty string".to_owned()));
    }
    let c0 = s.get_char(0);
    let neg: bool = c0 == '-';
    let start: usize = if c0 == '-' || c0 == '+' {
        1
    } else {
        0
    };
    proof {
        assert(int_body(s@) =~= s@.skip(start as int));
    }
    if start >= len {
        return Err(Error::Message("invalid digit found in string".to_owned()));
    }
    if !all_digits_from(s, start) {
        return Err(Error::Message("invalid digit found in string".to_owned()));
    }
    let limit: u64 = if neg {
        if min == i64::MIN {
            9223372036854775808u64
        } else {
            (-min) as u64
        }
    } else {
        max as u64
    };
    match digits_to_u64(s, start, limit) {
        Some(mag) => {
            if neg {
                if mag == 9223372036854775808u64 {
                    Ok(i64::MIN)
                } else {
                    Ok(-(mag as i64))
                }
            } else {
                Ok(mag as i64)
            }
        },
        None => {
            proof {
                lemma_digits_val_nonneg(s@.skip(start as int));
            }
            if neg {
                Err(Error::Message("number too small to fit in target type".to_owned()))
            } else {
                Err(Error::Message("number too large to fit in target type".to_owned()))
            }
        },
    }
}

impl Deserializer {
    /// Take one value from the current key and parse it as an unsigned
    /// integer worth at most `max`.
    pub fn decode_unsigned(&mut self, max: u64) -> (r: Result<u64, Error>)
        requires
            old(self).wf(),
        ensures
            final(self).wf(),
            old(self)@.entries.len() == 0 ==> (r matches Err(e) && e is MissingValues)
                && *final(self) == *old(self),
            old(self)@.entries.len() > 0 ==> final(self)@ == take_unit_next(old(self)@) && {
                let taken = take_unit_value(old(self)@);
                match r {
                    Ok(v) => unsigned_in_range(taken, max as int) && v == int_literal_val(taken),
                    Err(e) => !unsigned_in_range(taken, max as int) && (e
                        matches Error::Message(m) && m@ == unsigned_err_msg(taken)),
                }
            },
    {
        let unit = match self.next_unit() {
            Ok(u) => u,
            Err(e) => {
                return Err(e);
            },
        };
        parse_unsigned(unit.as_str(), max)
    }

    /// Take one value from the current key and parse it as a signed
    /// integer within `min ..= max`.
    pub fn decode_signed(&mut self, min: i64, max: i64) -> (r: Result<i64, Error>)
        requires
            old(self).wf(),
            min <= 0 <= max,
        ensures
            final(self).wf(),
            old(self)@.entries.len() == 0 ==> (r matches Err(e) && e is MissingValues)
                && *final(self) == *old(self),
            old(self)@.entries.len() > 0 ==> final(self)@ == take_unit_next(old(self)@) && {
                let taken = take_unit_value(old(self)@);
                match r {
                    Ok(v) => signed_in_range(taken, min as int, max as int) && v
                        == int_literal_val(taken),
                    Err(e) => !signed_in_range(taken, min as int, max as int) && (e
                        matches Error::Message(m) && m@ == signed_err_msg(
                        taken,
                        min as int,
                        max as int,
                    )),
                }
            },
    {
        let unit = match self.next_unit() {
            Ok(u) => u,
            Err(e) => {
                return Err(e);
            },
        };
        parse_signed(unit.as_str(), min, max)
    }

    /// Take one value from the current key and parse it as a boolean.
    pub fn decode_bool(&mut self) -> (r: Result<bool, Error>)
        requires
            old(self).wf(),
        ensures
            final(self).wf(),
            old(self)@.entries.len() == 0 ==> (r matches Err(e) && e is MissingValues)
                && *final(self) == *old(self),
            old(self)@.entries.len() > 0 ==> final(self)@ == take_unit_next(old(self)@) && {
                let taken = take_unit_value(old(self)@);
                match r {
                    Ok(b) => bool_literal_valid(taken) && b == bool_literal_val(taken),
                    Err(e) => !bool_literal_valid(taken) && (e matches Error::Message(m) && m@
                        == "provided string was not `true` or `false`"@),
                }
            },
    {
        let unit = match self.next_unit() {
            Ok(u) => u,
            Err(e) => {
                return Err(e);
            },
        };
        parse_bool(unit.as_str())
    }
}

/// The two boolean literals.
pub open spec fn bool_literal_valid(s: Seq<char>) -> bool {
    s == "true"@ || s == "false"@
}

/// The value of a boolean literal.
pub open spec fn bool_literal_val(s: Seq<char>) -> bool {
    s == "true"@
}

/// Parse a boolean literal: exactly `true` or `false`.
pub fn parse_bool(s: &str) -> (r: Result<bool, Error>)
    ensures
        match r {
            Ok(b) => bool_literal_valid(s@) && b == bool_literal_val(s@),
            Err(e) => !bool_literal_valid(s@) && (e matches Error::Message(m) && m@
                == "provided string was not `true` or `false`"@),
        },
{
    let owned = s.to_owned();
    if owned == "true".to_owned() {
        Ok(true)
    } else if owned == "false".to_owned() {
        Ok(false)
    } else {
        Err(Error::Message("provided string was not `true` or `false`".to_owned()))
    }
}

} // verus!

//! The traversal state machine: single-depth scope guards for the one
//! permitted record and the one permitted sequence, the optional-value
//! rule, the unit-variant rule, and the end-of-decode check.

use vstd::prelude::*;
use crate::error::Error;
use crate::model::{
    optional_allowed, record_begun, record_can_begin, record_ended, sequence_begun,
    sequence_can_begin, sequence_fully_consumed, store_consumed,
};
use crate::store::Deserializer;

verus! {

/// The shape of the enum variant a target type asks to fill.
#[derive(Clone, Copy, Debug, PartialEq, Eq, Structural)]
pub enum VariantShape {
    /// A variant with no payload, selected purely by name.
    Unit,
    /// A variant wrapping one value.
    Newtype,
    /// A variant wrapping a tuple of values.
    Tuple,
    /// A variant wrapping named fields.
    Struct,
}

/// A flat key space can select a variant by name but carry no payload for
/// it, so only unit variants decode; any other shape is rejected.
pub fn confirm_unit_variant(shape: VariantShape) -> (r: Result<(), Error>)
    ensures
        match r {
            Ok(_) => shape is Unit,
            Err(e) => !(shape is Unit) && e is ExpectedUnitVariant,
        },
{
    match shape {
        VariantShape::Unit => Ok(()),
        _ => Err(Error::ExpectedUnitVariant),
    }
}

impl Deserializer {
    /// Enter the single permitted record scope. Records cannot nest: the
    /// flat key space has no way to scope a sub-record.
    pub fn begin_record(&mut self) -> (r: Result<(), Error>)
        ensures
            match r {
                Ok(_) => record_can_begin(old(self)@) && final(self)@ == record_begun(
                    old(self)@,
                ),
                Err(e) => !record_can_begin(old(self)@) && e is ForbiddenNestedMap
                    && *final(self) == *old(self),
            },
    {
        if self.in_map {
            Err(Error::ForbiddenNestedMap)
        } else {
            self.in_map = true;
            Ok(())
        }
    }

    /// Release the record scope, on success and on failure alike, so no
    /// state leaks across partial failures within one decode call.
    pub fn end_record(&mut self)
        ensures
            final(self)@ == record_ended(old(self)@),
    {
        self.in_map = false;
    }

    /// Enter the single permitted sequence scope. Sequences cannot nest: a
    /// repeated key carries one flat run of values.
    pub fn begin_sequence(&mut self) -> (r: Result<(), Error>)
        ensures
            match r {
                Ok(_) => sequence_can_begin(old(self)@) && final(self)@ == sequence_begun(
                    old(self)@,
                ),
                Err(e) => !sequence_can_begin(old(self)@) && e is ForbiddenNestedSequence
                    && *final(self) == *old(self),
            },
    {
        if self.in_sequence {
            Err(Error::ForbiddenNestedSequence)
        } else {
            self.in_sequence = true;
            Ok(())
        }
    }

    /// Check that a finished sequence was drained to its end: taking the
    /// last value under its key releases the scope, so a guard still set
    /// means the consumer stopped early.
    pub fn end_sequence(&self) -> (r: Result<(), Error>)
        ensures
            match r {
                Ok(_) => sequence_fully_consumed(self@),
                Err(e) => !sequence_fully_consumed(self@) && e is SequenceNotConsumed,
            },
    {
        if self.in_sequence {
            Err(Error::SequenceNotConsumed)
        } else {
            Ok(())
        }
    }

    /// Check that an optional value is representable here: only a record
    /// field may be optional, since only a missing key can stand for a
    /// missing value.
    pub fn check_optional(&self) -> (r: Result<(), Error>)
        ensures
            match r {
                Ok(_) => optional_allowed(self@),
                Err(e) => !optional_allowed(self@) && e is ForbiddenTopLevelOption,
            },
    {
        if self.in_map {
            Ok(())
        } else {
            Err(Error::ForbiddenTopLevelOption)
        }
    }

    /// Check that the whole store was consumed; keys the target type never
    /// asked for are an error.
    pub fn finish(&self) -> (r: Result<(), Error>)
        ensures
            match r {
                Ok(_) => store_consumed(self@),
                Err(e) => !store_consumed(self@) && e is TrailingValues,
            },
    {
        if self.entries.len() == 0 {
            Ok(())
        } else {
            Err(Error::TrailingValues)
        }
    }
}

} // verus!

use vstd::prelude::*;

verus! {

/// Every way a decode can fail.
///
/// All failures abort the whole decode; none is retried or locally recovered.
#[derive(Debug)]
pub enum Error {
    /// Keys remained in the store after the target value was fully built.
    TrailingValues,
    /// A record scope was requested while one was already active.
    ForbiddenNestedMap,
    /// A sequence scope was requested while one was already active.
    ForbiddenNestedSequence,
    /// A sequence scope was left before its backing key was exhausted.
    SequenceNotConsumed,
    /// A key was requested from an empty store.
    MissingKey,
    /// A value queue was requested from an empty store.
    MissingValues,
    /// A value was requested from an exhausted queue.
    MissingValue,
    /// An optional value was requested outside a record scope.
    ForbiddenTopLevelOption,
    /// An enum variant carrying data was requested; only unit variants fit.
    ExpectedUnitVariant,
    /// Removing an exhausted key found nothing; unreachable while the store
    /// invariant holds.
    RemoveKeyFailed(String),
    /// A scalar parse failure or a framework-reported complaint.
    Message(String),
    /// The raw query string could not be split into key/value pairs.
    UrlEncoded(String),
}

impl Error {
    /// A short human-readable description, in place of `Display`.
    pub fn describe(&self) -> (r: String)
        ensures
            self matches Error::Message(m) ==> r@ == m@,
    {
        match self {
            Error::TrailingValues => "unconsumed keys remain after decoding".to_owned(),
            Error::ForbiddenNestedMap => "nested maps are not supported".to_owned(),
            Error::ForbiddenNestedSequence => "nested sequences are not supported".to_owned(),
            Error::SequenceNotConsumed => "sequence was not consumed to its end".to_owned(),
            Error::MissingKey => "no key remains in the store".to_owned(),
            Error::MissingValues => "no value queue remains in the store".to_owned(),
            Error::MissingValue => "no value remains under the current key".to_owned(),
            Error::ForbiddenTopLevelOption => "optional values are only supported inside a map".to_owned(),
            Error::ExpectedUnitVariant => "only unit enum variants are supported".to_owned(),
            Error::RemoveKeyFailed(k) => k.clone(),
            Error::Message(m) => m.clone(),
            Error::UrlEncoded(m) => m.clone(),
        }
    }
}

} // verus!

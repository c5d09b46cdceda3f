//! Building the store straight from a raw query string, by handing the
//! URL-decoding of the string to an outside routine.

use vstd::prelude::*;
use crate::error::Error;
use crate::model::{pairs_view, store_of};
use crate::store::Deserializer;

verus! {

/// What the URL-encoded splitter yields on `s`: the decoded key/value
/// pairs in input order, or nothing where `s` is not decodable.
pub uninterp spec fn split_pairs(s: Seq<char>) -> Option<Seq<(Seq<char>, Seq<char>)>>;

/// Relies on serde_urlencoded::from_str::<Vec<(String, String)>>: it splits
/// a query string at `&` and `=` and percent-decodes keys and values, in
/// input order; the outcome depends on the input characters alone.
#[verifier::external_body]
fn parse_query_pairs(s: &str) -> (r: Result<Vec<(String, String)>, String>)
    ensures
        match r {
            Ok(pairs) => split_pairs(s@) == Some(pairs_view(pairs@)),
            Err(_) => split_pairs(s@) is None,
        },
{
    serde_urlencoded::from_str::<Vec<(String, String)>>(s).map_err(|e| e.to_string())
}

impl Deserializer {
    /// Build the store from a raw query string: split and percent-decode it
    /// into pairs, then build the store from those.
    pub fn from_query_str(s: &str) -> (r: Result<Self, Error>)
        ensures
            match r {
                Ok(d) => (split_pairs(s@) matches Some(ps) && d@.entries == store_of(ps))
                    && d.wf() && !d@.in_map && !d@.in_sequence,
                Err(e) => split_pairs(s@) is None && e is UrlEncoded,
            },
    {
        match parse_query_pairs(s) {
            Ok(pairs) => Ok(Deserializer::from_key_values(pairs)),
            Err(m) => Err(Error::UrlEncoded(m)),
        }
    }
}

} // verus!

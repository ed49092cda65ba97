//! Recognising RFC 3339 timestamps.
use vstd::prelude::*;

verus! {

/// Whether a string is an RFC 3339 timestamp, as chrono's parser decides it.
pub uninterp spec fn is_rfc3339(s: Seq<char>) -> bool;

/// Relies on chrono's `DateTime::parse_from_rfc3339`: whether it parses the
/// string, which depends on the string alone.
#[verifier::external_body]
pub(crate) fn is_timestamp(s: &str) -> (r: bool)
    ensures
        r == is_rfc3339(s@),
{
    chrono::DateTime::parse_from_rfc3339(s).is_ok()
}

} // verus!

use vstd::prelude::*;

verus! {

/// Whether a string is a well-formed endpoint identifier of the bundle
/// protocol (a dtn or ipn URI).
pub uninterp spec fn eid_ok(s: Seq<char>) -> bool;

/// Relies on bp7's `EndpointID::try_from(&str)`: whether an endpoint
/// identifier string is accepted depends on the characters alone.
#[verifier::external_body]
pub(crate) fn check_eid(s: &str) -> (r: bool)
    ensures
        r == eid_ok(s@),
{
    bp7::EndpointID::try_from(s).is_ok()
}

} // verus!

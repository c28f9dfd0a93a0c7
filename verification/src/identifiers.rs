//! Which strings Matrix accepts as user and event identifiers.
use vstd::prelude::*;

verus! {

/// Whether `id` is a valid Matrix user identifier, by ruma's rules.
pub uninterp spec fn is_user_id(id: Seq<char>) -> bool;

/// Whether `id` is a valid Matrix event identifier, by ruma's rules.
pub uninterp spec fn is_event_id(id: Seq<char>) -> bool;

/// Whether ruma accepts `id` as a user identifier
/// (`ruma_common::OwnedUserId::try_from`).
#[verifier::external_body]
pub(crate) fn user_id_is_valid(id: &str) -> (valid: bool)
    ensures
        valid == is_user_id(id@),
{
    ruma_common::OwnedUserId::try_from(id).is_ok()
}

/// Whether ruma accepts `id` as an event identifier
/// (`ruma_common::OwnedEventId::try_from`).
#[verifier::external_body]
pub(crate) fn event_id_is_valid(id: &str) -> (valid: bool)
    ensures
        valid == is_event_id(id@),
{
    ruma_common::OwnedEventId::try_from(id).is_ok()
}

} // verus!

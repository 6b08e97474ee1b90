//! Where fresh identifiers and the current time come from.

use vstd::prelude::*;
use crate::key::Id;

verus! {

/// `uuid::Uuid::new_v4`, taken by its sixteen bytes (`Uuid::into_bytes`): a
/// random identifier. Nothing is claimed of the bytes.
#[verifier::external_body]
pub(crate) fn fresh_id() -> Id {
    Id { bytes: uuid::Uuid::new_v4().into_bytes() }
}

/// `chrono::Utc::now`, taken as milliseconds since 1970
/// (`DateTime::timestamp_millis`). Nothing is claimed of the value. The
/// system clock is taken to stand after 1970, as `Utc::now` itself takes it.
#[verifier::external_body]
pub(crate) fn now_millis() -> i64 {
    chrono::Utc::now().timestamp_millis()
}

/// The `updated` stamp of a record that was created at `created` and is
/// written at `now`: the time of the writing. Only where the clock reads
/// before the creation is it the time of the creation, so that no record is
/// updated before it was created.
pub open spec fn spec_bump(created: i64, now: i64) -> i64 {
    if now >= created {
        now
    } else {
        created
    }
}

/// The `updated` stamp of a record created at `created` and written at
/// `now`.
#[verifier::when_used_as_spec(spec_bump)]
pub fn bump(created: i64, now: i64) -> (stamp: i64)
    ensures
        stamp == spec_bump(created, now),
        now >= created ==> stamp == now,
        stamp >= created,
{
    if now >= created {
        now
    } else {
        created
    }
}

} // verus!

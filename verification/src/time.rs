use vstd::prelude::*;

verus! {

/// The RFC 3339 text that `chrono` writes for an instant given in nanoseconds
/// since the Unix epoch, in UTC (`DateTime::<Utc>::to_rfc3339`).
pub uninterp spec fn rfc3339_text(nanos: i64) -> Seq<char>;

/// Calls `chrono::DateTime::<chrono::Utc>::from_timestamp_nanos` and then
/// `to_rfc3339`. Claimed: the text is a function of the instant alone (UTC, no
/// local time zone), named [`rfc3339_text`]; its format is not stated.
#[verifier::external_body]
pub(crate) fn rfc3339(nanos: i64) -> (r: String)
    ensures
        r@ == rfc3339_text(nanos),
{
    chrono::DateTime::<chrono::Utc>::from_timestamp_nanos(nanos).to_rfc3339()
}

} // verus!

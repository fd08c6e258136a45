use vstd::prelude::*;

verus! {

/// Relies on `uuid::Uuid::new_v4`: a random version-4 identifier, read as
/// its 128-bit value. Nothing is promised about the value drawn.
#[verifier::external_body]
pub(crate) fn fresh_uuid() -> (r: u128) {
    uuid::Uuid::new_v4().as_u128()
}

} // verus!

verus! {

/// Relies on `std::time::SystemTime::now` and `duration_since(UNIX_EPOCH)`:
/// the nanoseconds since the Unix epoch, or `None` when the clock reads
/// earlier than the epoch. Nothing is promised about the value read.
#[verifier::external_body]
pub(crate) fn clock_nanos() -> (r: Option<u64>) {
    std::time::SystemTime::now().duration_since(std::time::UNIX_EPOCH).ok().map(
        |d| d.as_nanos() as u64,
    )
}

} // verus!

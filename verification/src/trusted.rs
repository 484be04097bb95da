//! The points where the library calls outside code in the middle of its
//! logic: the wall clock, the uuid crate, and std's case folding. Each
//! function is an `external_body` wrapper whose contract states no more
//! than the callee's documentation promises.

use vstd::prelude::*;

verus! {

/// Relies on std::time::SystemTime::now / duration_since / as_nanos: reads
/// the wall clock as nanoseconds since the UNIX epoch (0 if the clock sits
/// before the epoch). Nothing can be promised of a clock reading.
#[verifier::external_body]
pub(crate) fn now_nanos() -> u64 {
    std::time::SystemTime::now()
        .duration_since(std::time::UNIX_EPOCH)
        .map(|d| d.as_nanos() as u64)
        .unwrap_or(0)
}

/// Relies on uuid::Uuid::new_v4 / Uuid::as_u128: draws a fresh random
/// version-4 uuid and hands back its 128-bit value. The result is random,
/// so nothing can be promised of it.
#[verifier::external_body]
pub(crate) fn fresh_uuid_value() -> u128 {
    uuid::Uuid::new_v4().as_u128()
}

/// What uuid::Uuid::parse_str accepts and yields on a given string: the
/// parse depends on the characters alone.
pub uninterp spec fn parsed_uuid_value(s: Seq<char>) -> Option<u128>;

/// Relies on uuid::Uuid::parse_str / Uuid::as_u128: parses the textual uuid
/// forms (hyphenated, simple, urn, braced) into the 128-bit value, `None`
/// where the text is not a uuid.
#[verifier::external_body]
pub(crate) fn parse_uuid_value(s: &str) -> (r: Option<u128>)
    ensures
        r == parsed_uuid_value(s@),
{
    uuid::Uuid::parse_str(s).ok().map(|u| u.as_u128())
}

/// What str::to_lowercase yields on a given string: the folding depends on
/// the characters alone.
pub uninterp spec fn lower_of(s: Seq<char>) -> Seq<char>;

/// Relies on str::to_lowercase: the result depends on the characters alone;
/// an empty string stays empty.
#[verifier::external_body]
pub(crate) fn lowercase(s: &str) -> (r: String)
    ensures
        r@ == lower_of(s@),
        s@.len() == 0 ==> r@.len() == 0,
{
    s.to_lowercase()
}

} // verus!
